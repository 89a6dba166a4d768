use vstd::prelude::*;

use crate::error::Error;
use crate::tile::{square_char, square_tile, Square, Tile};
use crate::turn::Turn;
use crate::words::{all_words, cells_of, scan_words, GetChar, Word, BOARD_SIZE, INDEX_OVERFLOW};

verus! {

/// Characters with the Unicode `White_Space` property, which separate the
/// tokens of a board layout.
pub open spec fn is_space(c: char) -> bool {
    ('\u{9}' <= c <= '\u{d}') || c == ' ' || c == '\u{85}' || c == '\u{a0}' || c == '\u{1680}'
        || ('\u{2000}' <= c <= '\u{200a}') || c == '\u{2028}' || c == '\u{2029}' || c
        == '\u{202f}' || c == '\u{205f}' || c == '\u{3000}'
}

pub fn is_space_char(c: char) -> (r: bool)
    ensures
        r == is_space(c),
{
    ('\u{9}' <= c && c <= '\u{d}') || c == ' ' || c == '\u{85}' || c == '\u{a0}' || c
        == '\u{1680}' || ('\u{2000}' <= c && c <= '\u{200a}') || c == '\u{2028}' || c
        == '\u{2029}' || c == '\u{202f}' || c == '\u{205f}' || c == '\u{3000}'
}

/// Tokens found so far, and the token being read.
pub struct TokenState {
    pub tokens: Seq<Seq<char>>,
    pub current: Seq<char>,
}

/// The tokens after a token ends: an empty one is dropped.
pub open spec fn end_token(tokens: Seq<Seq<char>>, current: Seq<char>) -> Seq<Seq<char>> {
    if current.len() > 0 {
        tokens.push(current)
    } else {
        tokens
    }
}

/// Splitting the first `n` characters of a text at white space.
pub open spec fn tokenize(s: Seq<char>, n: nat) -> TokenState
    decreases n,
{
    if n == 0 {
        TokenState { tokens: seq![], current: seq![] }
    } else {
        let prev = tokenize(s, (n - 1) as nat);
        if is_space(s[n - 1]) {
            TokenState { tokens: end_token(prev.tokens, prev.current), current: seq![] }
        } else {
            TokenState { tokens: prev.tokens, current: prev.current.push(s[n - 1]) }
        }
    }
}

/// The white-space separated tokens of a text.
pub open spec fn tokens(s: Seq<char>) -> Seq<Seq<char>> {
    let state = tokenize(s, s.len());
    end_token(state.tokens, state.current)
}

/// The square a layout token stands for: `.` empty, `2l`/`3l` letter bonus,
/// `2w`/`3w` word bonus, any other single character a letter tile.
pub open spec fn token_square(t: Seq<char>) -> Option<Square> {
    if t == seq!['.'] {
        Some(Square::Blank)
    } else if t == seq!['3', 'w'] {
        Some(Square::WordBonus(3))
    } else if t == seq!['2', 'w'] {
        Some(Square::WordBonus(2))
    } else if t == seq!['3', 'l'] {
        Some(Square::LetterBonus(3))
    } else if t == seq!['2', 'l'] {
        Some(Square::LetterBonus(2))
    } else if t.len() == 1 {
        Some(Square::Tile(Tile::Char(t[0])))
    } else {
        None
    }
}

/// The squares of a list of tokens, or the first token that names none.
pub open spec fn token_squares(ts: Seq<Seq<char>>) -> Result<Seq<Square>, Seq<char>>
    decreases ts.len(),
{
    if ts.len() == 0 {
        Ok(seq![])
    } else {
        match token_squares(ts.drop_last()) {
            Err(t) => Err(t),
            Ok(squares) => match token_square(ts.last()) {
                Some(q) => Ok(squares.push(q)),
                None => Err(ts.last()),
            },
        }
    }
}

/// A layout text read as a board: the squares of its tokens, which must be
/// exactly one per cell. The error holds the first bad token, or nothing
/// when the count is wrong.
pub open spec fn parse_layout(s: Seq<char>) -> Result<Seq<Square>, Seq<char>> {
    match token_squares(tokens(s)) {
        Err(t) => Err(t),
        Ok(squares) => if squares.len() == INDEX_OVERFLOW {
            Ok(squares)
        } else {
            Err(seq![])
        },
    }
}

/// A bonus square multiplies by two or three.
pub open spec fn square_ok(s: Square) -> bool {
    match s {
        Square::LetterBonus(m) => m == 2 || m == 3,
        Square::WordBonus(m) => m == 2 || m == 3,
        _ => true,
    }
}

/// A board has one square per cell, and its bonuses are doubles or triples.
pub open spec fn board_ok(b: Seq<Square>) -> bool {
    &&& b.len() == INDEX_OVERFLOW
    &&& forall|i: int| 0 <= i < b.len() ==> square_ok(#[trigger] b[i])
}

/// The square at `index` of the standard layout. The layout is symmetric
/// about both middle lines and both diagonals, so one eighth of it decides.
pub open spec fn standard_square(index: int) -> Square {
    let row = index / 15;
    let col = index % 15;
    let r = if row <= 7 { row } else { 14 - row };
    let c = if col <= 7 { col } else { 14 - col };
    let a = if r <= c { r } else { c };
    let b = if r <= c { c } else { r };
    if (a == 0 && b == 0) || (a == 0 && b == 7) {
        Square::WordBonus(3)
    } else if a == b && 1 <= a <= 4 || a == 7 && b == 7 {
        Square::WordBonus(2)
    } else if (a == 1 && b == 5) || (a == 5 && b == 5) {
        Square::LetterBonus(3)
    } else if (a == 0 && b == 3) || (a == 2 && b == 6) || (a == 3 && b == 7) || (a == 6 && b
        == 6) {
        Square::LetterBonus(2)
    } else {
        Square::Blank
    }
}

/// The standard layout.
pub open spec fn standard_layout() -> Seq<Square> {
    Seq::new(INDEX_OVERFLOW as nat, |i: int| standard_square(i))
}

/// The character at `index` of a board, if a tile with a letter stands there.
pub open spec fn board_char(b: Seq<Square>, index: int) -> Option<char> {
    if 0 <= index < b.len() {
        square_char(b[index])
    } else {
        None
    }
}

/// The tile at `index` of a board, if any.
pub open spec fn board_tile(b: Seq<Square>, index: int) -> Option<Tile> {
    if 0 <= index < b.len() {
        square_tile(b[index])
    } else {
        None
    }
}

/// The letter multiplier of a cell; 1 where there is no letter bonus.
pub open spec fn letter_mult(b: Seq<Square>, index: int) -> int {
    if 0 <= index < b.len() {
        match b[index] {
            Square::LetterBonus(m) => m as int,
            _ => 1,
        }
    } else {
        1
    }
}

/// The word multiplier of a cell; 1 where there is no word bonus.
pub open spec fn word_mult(b: Seq<Square>, index: int) -> int {
    if 0 <= index < b.len() {
        match b[index] {
            Square::WordBonus(m) => m as int,
            _ => 1,
        }
    } else {
        1
    }
}

/// The product of the word multipliers of some cells.
pub open spec fn word_bonus_of(b: Seq<Square>, indexes: Seq<usize>) -> int
    decreases indexes.len(),
{
    if indexes.len() == 0 {
        1
    } else {
        word_bonus_of(b, indexes.drop_last()) * word_mult(b, indexes.last() as int)
    }
}

/// A board after the tiles of a turn have been laid on it, in order.
pub open spec fn laid(b: Seq<Square>, tiles: Seq<(usize, Tile)>) -> Seq<Square>
    decreases tiles.len(),
{
    if tiles.len() == 0 {
        b
    } else {
        laid(b, tiles.drop_last()).update(tiles.last().0 as int, Square::Tile(tiles.last().1))
    }
}

/// The text of one square in the board picture: three characters wide.
pub open spec fn square_text(s: Square) -> Seq<char> {
    match s {
        Square::Blank => seq!['.', ' ', ' '],
        Square::Tile(Tile::Char(c)) => seq![c, ' ', ' '],
        Square::Tile(Tile::Blank(Some(c))) => seq![':', c, ' '],
        Square::Tile(Tile::Blank(None)) => seq![':', ':', ' '],
        Square::LetterBonus(m) => seq![digit(m as int), 'l', ' '],
        Square::WordBonus(m) => seq![digit(m as int), 'w', ' '],
    }
}

/// The decimal digit of a number below ten.
pub open spec fn digit(d: int) -> char {
    (('0' as int) + d) as char
}

/// The picture of the first `n` squares of a board: each row on a line.
pub open spec fn board_text(b: Seq<Square>, n: nat) -> Seq<char>
    decreases n,
{
    if n == 0 {
        seq![]
    } else {
        let t = board_text(b, (n - 1) as nat) + square_text(b[n - 1]);
        if (n - 1) % (BOARD_SIZE as int) == BOARD_SIZE - 1 {
            t.push('\n')
        } else {
            t
        }
    }
}

pub fn format_square(square: &Square) -> (r: String)
    requires
        square_ok(*square),
    ensures
        r@ == square_text(*square),
{
    let mut s = String::new();
    match *square {
        Square::Blank => {
            s.push('.');
            s.push(' ');
            s.push(' ');
        },
        Square::Tile(Tile::Char(c)) => {
            s.push(c);
            s.push(' ');
            s.push(' ');
        },
        Square::Tile(Tile::Blank(Some(c))) => {
            s.push(':');
            s.push(c);
            s.push(' ');
        },
        Square::Tile(Tile::Blank(None)) => {
            s.push(':');
            s.push(':');
            s.push(' ');
        },
        Square::LetterBonus(m) => {
            s.push(if m == 2 { '2' } else { '3' });
            s.push('l');
            s.push(' ');
        },
        Square::WordBonus(m) => {
            s.push(if m == 2 { '2' } else { '3' });
            s.push('w');
            s.push(' ');
        },
    }
    proof {
        assert(s@ =~= square_text(*square));
    }
    s
}

/// The fifteen by fifteen grid of squares, row by row.
#[derive(Debug, Clone)]
pub struct Board(Vec<Square>);

impl View for Board {
    type V = Seq<Square>;

    closed spec fn view(&self) -> Seq<Square> {
        self.0@
    }
}

fn standard_square_at(index: usize) -> (r: Square)
    requires
        index < INDEX_OVERFLOW,
    ensures
        r == standard_square(index as int),
{
    let row = index / 15;
    let col = index % 15;
    let r = if row <= 7 { row } else { 14 - row };
    let c = if col <= 7 { col } else { 14 - col };
    let a = if r <= c { r } else { c };
    let b = if r <= c { c } else { r };
    if (a == 0 && b == 0) || (a == 0 && b == 7) {
        Square::WordBonus(3)
    } else if a == b && 1 <= a && a <= 4 || a == 7 && b == 7 {
        Square::WordBonus(2)
    } else if (a == 1 && b == 5) || (a == 5 && b == 5) {
        Square::LetterBonus(3)
    } else if (a == 0 && b == 3) || (a == 2 && b == 6) || (a == 3 && b == 7) || (a == 6 && b
        == 6) {
        Square::LetterBonus(2)
    } else {
        Square::Blank
    }
}

/// Builds the square of a layout token, or `None` when the token names none.
fn square_of_token(t: &Vec<char>) -> (r: Option<Square>)
    ensures
        r == token_square(t@),
{
    if t.len() == 1 && t[0] == '.' {
        proof {
            assert(t@ =~= seq!['.']);
        }
        Some(Square::blank())
    } else if t.len() == 2 && (t[0] == '2' || t[0] == '3') && (t[1] == 'w' || t[1] == 'l') {
        proof {
            assert(t@ =~= seq![t@[0], t@[1]]);
            assert(t@ != seq!['.']);
        }
        let m: isize = if t[0] == '2' { 2 } else { 3 };
        if t[1] == 'w' {
            Some(Square::word_bonus(m))
        } else {
            Some(Square::letter_bonus(m))
        }
    } else if t.len() == 1 {
        proof {
            assert(t@ != seq!['3', 'w']);
            assert(t@ != seq!['2', 'w']);
            assert(t@ != seq!['3', 'l']);
            assert(t@ != seq!['2', 'l']);
        }
        Some(Square::Tile(Tile::Char(t[0])))
    } else {
        proof {
            if t.len() == 2 {
                assert(t@ != seq!['3', 'w'] && t@ != seq!['2', 'w'] && t@ != seq!['3', 'l'] && t@
                    != seq!['2', 'l']) by {
                    if t@ == seq!['3', 'w'] || t@ == seq!['2', 'w'] || t@ == seq!['3', 'l'] || t@
                        == seq!['2', 'l'] {
                        assert(t@[0] == '2' || t@[0] == '3');
                        assert(t@[1] == 'w' || t@[1] == 'l');
                    }
                }
            }
        }
        None
    }
}

fn chars_to_string(t: &Vec<char>) -> (r: String)
    ensures
        r@ == t@,
{
    let mut s = String::new();
    let mut k: usize = 0;
    while k < t.len()
        invariant
            k <= t@.len(),
            s@ == t@.take(k as int),
        decreases t@.len() - k,
    {
        s.push(t[k]);
        k += 1;
        proof {
            assert(s@ =~= t@.take(k as int));
        }
    }
    proof {
        assert(t@.take(k as int) =~= t@);
    }
    s
}

impl Board {
    pub open spec fn wf(&self) -> bool {
        board_ok(self@)
    }

    /// The board with the standard English layout of bonus squares.
    pub fn standard() -> (r: Result<Board, Error>)
        ensures
            r matches Ok(b) && b@ == standard_layout() && b.wf(),
    {
        Ok(Self::standard_board())
    }

    pub fn standard_board() -> (r: Board)
        ensures
            r@ == standard_layout(),
            r.wf(),
    {
        let mut squares: Vec<Square> = Vec::new();
        let mut i: usize = 0;
        while i < INDEX_OVERFLOW
            invariant
                i <= INDEX_OVERFLOW,
                squares@ == standard_layout().take(i as int),
            decreases INDEX_OVERFLOW - i,
        {
            squares.push(standard_square_at(i));
            i += 1;
            proof {
                assert(squares@ =~= standard_layout().take(i as int));
            }
        }
        proof {
            assert(squares@ =~= standard_layout());
        }
        Board(squares)
    }

    /// Reads a layout: white-space separated tokens, one per cell, row by row.
    pub fn parse(board_string: &str) -> (r: Result<Board, Error>)
        ensures
            match parse_layout(board_string@) {
                Ok(squares) => r matches Ok(b) && b@ == squares && b.wf(),
                Err(t) => r matches Err(Error::BoardParse(s)) && s@ == t,
            },
    {
        let ghost text = board_string@;
        let n = board_string.unicode_len();
        let mut squares: Vec<Square> = Vec::new();
        let mut current: Vec<char> = Vec::new();
        let mut k: usize = 0;
        while k < n
            invariant
                n == text.len(),
                text == board_string@,
                k <= n,
                token_squares(tokenize(text, k as nat).tokens) == Ok::<Seq<Square>, Seq<char>>(
                    squares@,
                ),
                tokenize(text, k as nat).current == current@,
            decreases n - k,
        {
            let c = board_string.get_char(k);
            if is_space_char(c) {
                if current.len() > 0 {
                    match square_of_token(&current) {
                        Some(q) => squares.push(q),
                        None => {
                            let bad = chars_to_string(&current);
                            proof {
                                let ts = tokenize(text, k as nat).tokens.push(current@);
                                assert(ts.drop_last() =~= tokenize(text, k as nat).tokens);
                                assert(tokenize(text, (k + 1) as nat).tokens == ts);
                                lemma_tokens_err_prefix(text, (k + 1) as nat);
                            }
                            return Err(Error::BoardParse(bad));
                        },
                    }
                    current = Vec::new();
                }
            } else {
                current.push(c);
            }
            proof {
                let prev = tokenize(text, k as nat);
                if prev.current.len() > 0 {
                    let ts = prev.tokens.push(prev.current);
                    assert(ts.drop_last() =~= prev.tokens);
                }
            }
            k += 1;
        }
        if current.len() > 0 {
            match square_of_token(&current) {
                Some(q) => squares.push(q),
                None => {
                    let bad = chars_to_string(&current);
                    proof {
                        let ts = tokenize(text, k as nat).tokens.push(current@);
                        assert(ts.drop_last() =~= tokenize(text, k as nat).tokens);
                    }
                    return Err(Error::BoardParse(bad));
                },
            }
            proof {
                let ts = tokenize(text, k as nat).tokens.push(current@);
                assert(ts.drop_last() =~= tokenize(text, k as nat).tokens);
            }
        }
        if squares.len() != INDEX_OVERFLOW {
            return Err(Error::BoardParse(String::new()));
        }
        proof {
            assert forall|i: int| 0 <= i < squares@.len() implies square_ok(
                #[trigger] squares@[i],
            ) by {
                lemma_token_squares_ok(tokens(text), i);
            }
        }
        Ok(Board(squares))
    }

    /// A board of the given squares, if there is one per cell and every
    /// bonus is a double or a triple.
    pub fn from_squares(squares: Vec<Square>) -> (r: Option<Board>)
        ensures
            board_ok(squares@) ==> (r matches Some(b) && b@ == squares@),
            !board_ok(squares@) ==> r is None,
    {
        if squares.len() != INDEX_OVERFLOW {
            return None;
        }
        let mut k: usize = 0;
        while k < squares.len()
            invariant
                k <= squares@.len(),
                forall|i: int| 0 <= i < k ==> square_ok(#[trigger] squares@[i]),
            decreases squares@.len() - k,
        {
            let ok = match squares[k] {
                Square::LetterBonus(m) => m == 2 || m == 3,
                Square::WordBonus(m) => m == 2 || m == 3,
                _ => true,
            };
            if !ok {
                return None;
            }
            k += 1;
        }
        Some(Board(squares))
    }

    pub fn squares(&self) -> (r: &Vec<Square>)
        ensures
            r@ == self@,
    {
        &self.0
    }

    /// The words on the board: rows first, then columns.
    pub fn words(&self) -> (r: Vec<Word>)
        ensures
            r@.map_values(|w: Word| w@) == all_words(cells_of(self)),
            forall|k: int|
                0 <= k < r@.len() ==> {
                    let w = #[trigger] r@[k]@;
                    &&& 2 <= w.indexes.len() <= BOARD_SIZE
                    &&& w.indexes.len() == w.text.len()
                },
    {
        scan_words(self)
    }

    pub fn get_square(&self, index: &usize) -> (r: Option<&Square>)
        ensures
            *index < self@.len() ==> (r matches Some(s) && *s == self@[*index as int]),
            *index >= self@.len() ==> r is None,
    {
        if *index < self.0.len() {
            Some(&self.0[*index])
        } else {
            None
        }
    }

    /// The product of the word bonuses on some cells.
    pub fn word_bonus(&self, indexes: &Vec<usize>) -> (r: i64)
        requires
            self.wf(),
            indexes@.len() <= BOARD_SIZE,
        ensures
            r == word_bonus_of(self@, indexes@),
            1 <= r <= 14348907,
    {
        let mut bonus: i64 = 1;
        let mut k: usize = 0;
        let ghost mut bound: int = 1;
        while k < indexes.len()
            invariant
                self.wf(),
                indexes@.len() <= BOARD_SIZE,
                k <= indexes@.len(),
                bonus == word_bonus_of(self@, indexes@.take(k as int)),
                1 <= bonus <= bound,
                bound == pow3(k as nat),
            decreases indexes@.len() - k,
        {
            proof {
                assert(indexes@.take(k as int + 1).drop_last() =~= indexes@.take(k as int));
                lemma_pow3_bound(k as nat);
            }
            let index = indexes[k];
            if let Some(Square::WordBonus(multiplier)) = self.get_square(&index) {
                let m = *multiplier as i64;
                proof {
                    assert(square_ok(self@[index as int]));
                    assert(1 <= bonus * m <= bound * 3) by (nonlinear_arith)
                        requires
                            1 <= bonus <= bound,
                            2 <= m <= 3,
                    ;
                }
                bonus = bonus * m;
            }
            proof {
                bound = bound * 3;
            }
            k += 1;
        }
        proof {
            assert(indexes@.take(k as int) =~= indexes@);
            lemma_pow3_bound(k as nat);
        }
        bonus
    }

    /// Lays the tiles of a turn on their cells.
    pub fn commit_turn(&mut self, turn: &Turn) -> (r: Result<(), Error>)
        requires
            old(self).wf(),
            forall|k: int| 0 <= k < turn@.len() ==> (#[trigger] turn@[k]).0 < INDEX_OVERFLOW,
        ensures
            r is Ok,
            final(self)@ == laid(old(self)@, turn@),
            final(self).wf(),
    {
        let tiles = turn.tiles();
        let mut k: usize = 0;
        while k < tiles.len()
            invariant
                tiles@ == turn@,
                forall|j: int| 0 <= j < turn@.len() ==> (#[trigger] turn@[j]).0 < INDEX_OVERFLOW,
                k <= tiles@.len(),
                self@ == laid(old(self)@, turn@.take(k as int)),
                self.wf(),
            decreases tiles@.len() - k,
        {
            let (index, tile) = tiles[k];
            proof {
                assert(turn@.take(k as int + 1).drop_last() =~= turn@.take(k as int));
                assert(turn@[k as int].0 < INDEX_OVERFLOW);
            }
            self.0.set(index, Square::Tile(tile));
            k += 1;
        }
        proof {
            assert(turn@.take(k as int) =~= turn@);
        }
        Ok(())
    }

    /// The board drawn as text, one row per line.
    pub fn as_board_string(&self) -> (r: String)
        requires
            self.wf(),
        ensures
            r@ == board_text(self@, INDEX_OVERFLOW as nat),
    {
        let mut result = String::new();
        let mut k: usize = 0;
        while k < self.0.len()
            invariant
                self.wf(),
                k <= INDEX_OVERFLOW,
                result@ == board_text(self@, k as nat),
            decreases INDEX_OVERFLOW - k,
        {
            let text = format_square(&self.0[k]);
            let ghost before = result@;
            result.append(text.as_str());
            if k % BOARD_SIZE == BOARD_SIZE - 1 {
                result.push('\n');
            }
            k += 1;
        }
        result
    }

    pub fn get_tile(&self, index: &usize) -> (r: Option<&Tile>)
        requires
            *index < self@.len(),
        ensures
            match board_tile(self@, *index as int) {
                Some(t) => r matches Some(x) && *x == t,
                None => r is None,
            },
    {
        match &self.0[*index] {
            Square::Tile(tile) => Some(tile),
            _ => None,
        }
    }
}

impl GetChar for Board {
    open spec fn char_at(&self, index: int) -> Option<char> {
        board_char(self@, index)
    }

    fn get_char(&self, index: usize) -> (r: Option<char>) {
        match self.get_square(&index) {
            Some(square) => square.get_char(),
            None => None,
        }
    }
}

/// Three to the power `n`.
pub open spec fn pow3(n: nat) -> int
    decreases n,
{
    if n == 0 {
        1
    } else {
        3 * pow3((n - 1) as nat)
    }
}

/// Up to fifteen factors of at most three stay below three to the fifteenth.
pub proof fn lemma_pow3_bound(n: nat)
    requires
        n <= 15,
    ensures
        1 <= pow3(n) <= 14348907,
        pow3(n + 1) == 3 * pow3(n),
    decreases 15 - n,
{
    if n < 15 {
        lemma_pow3_bound(n + 1);
    } else {
        reveal_with_fuel(pow3, 16);
    }
}

/// Every square a list of tokens names is a well-formed square.
pub proof fn lemma_token_squares_ok(ts: Seq<Seq<char>>, i: int)
    requires
        token_squares(ts) is Ok,
        0 <= i < token_squares(ts)->Ok_0.len(),
    ensures
        square_ok(token_squares(ts)->Ok_0[i]),
    decreases ts.len(),
{
    if ts.len() > 0 {
        let prev = token_squares(ts.drop_last())->Ok_0;
        if i < prev.len() {
            lemma_token_squares_ok(ts.drop_last(), i);
        }
    }
}

/// Once the tokens read so far hold a bad one, the whole text is refused with it.
pub proof fn lemma_tokens_err_prefix(s: Seq<char>, n: nat)
    requires
        n <= s.len(),
        token_squares(tokenize(s, n).tokens) is Err,
    ensures
        token_squares(tokens(s)) == token_squares(tokenize(s, n).tokens),
    decreases s.len() - n,
{
    let state = tokenize(s, n);
    if n < s.len() {
        let next = tokenize(s, n + 1);
        if next.tokens != state.tokens {
            assert(next.tokens.drop_last() =~= state.tokens);
        }
        lemma_tokens_err_prefix(s, n + 1);
    } else {
        if state.current.len() > 0 {
            assert(tokens(s).drop_last() =~= state.tokens);
        }
    }
}

} // verus!
