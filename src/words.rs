use vstd::prelude::*;

verus! {

/// Side of the square board.
pub const BOARD_SIZE: usize = 15;

/// Number of cells on the board; also the first cursor past the last cell.
pub const INDEX_OVERFLOW: usize = 225;

/// Index of the center cell, which the first move of a game must cover.
pub const BOARD_CENTER: usize = 112;

/// Anything that can tell which character, if any, stands at a board index.
pub trait GetChar {
    spec fn char_at(&self, index: int) -> Option<char>;

    fn get_char(&self, index: usize) -> (r: Option<char>)
        ensures
            r == self.char_at(index as int),
    ;
}

/// The characters of a source at every board index, row by row.
pub open spec fn cells_of<S: GetChar>(source: &S) -> Seq<Option<char>> {
    Seq::new(INDEX_OVERFLOW as nat, |i: int| source.char_at(i))
}

/// The direction in which the scanner reads lines of the board.
#[derive(Clone, Copy, Debug, PartialEq, Eq, Structural)]
pub enum Direction {
    Horizontal,
    Vertical,
}

/// The board index that a scanning cursor stands on: rows are read in order
/// horizontally, columns in order vertically.
pub open spec fn transposed(cursor: int, direction: Direction) -> int {
    match direction {
        Direction::Horizontal => cursor,
        Direction::Vertical => cursor / (BOARD_SIZE as int) + (cursor % (BOARD_SIZE as int))
            * (BOARD_SIZE as int),
    }
}

pub fn transpose_index(index: usize, direction: &Direction) -> (r: usize)
    ensures
        r == transposed(index as int, *direction),
{
    match direction {
        Direction::Vertical => (index / BOARD_SIZE) + (index % BOARD_SIZE * BOARD_SIZE),
        Direction::Horizontal => index,
    }
}

/// A word as a value: the board indexes it covers and the characters on them.
pub struct WordView {
    pub indexes: Seq<usize>,
    pub text: Seq<char>,
}

impl WordView {
    pub open spec fn empty() -> WordView {
        WordView { indexes: seq![], text: seq![] }
    }

    pub open spec fn push(self, index: usize, c: char) -> WordView {
        WordView { indexes: self.indexes.push(index), text: self.text.push(c) }
    }
}

/// Where a scan stands: the words found so far and the run being read.
pub struct ScanState {
    pub words: Seq<WordView>,
    pub run: WordView,
}

/// The words found after a run ends: the run counts only with two letters or more.
pub open spec fn flush(words: Seq<WordView>, run: WordView) -> Seq<WordView> {
    if run.indexes.len() >= 2 {
        words.push(run)
    } else {
        words
    }
}

/// The state of a scan after its first `n` cursor positions. A run ends at an
/// empty cell and at the end of each line.
pub open spec fn scan(cells: Seq<Option<char>>, direction: Direction, n: nat) -> ScanState
    decreases n,
{
    if n == 0 {
        ScanState { words: seq![], run: WordView::empty() }
    } else {
        let prev = scan(cells, direction, (n - 1) as nat);
        let index = transposed(n - 1, direction);
        match cells[index] {
            Some(c) => {
                let run = prev.run.push(index as usize, c);
                if (n - 1) % (BOARD_SIZE as int) == BOARD_SIZE - 1 {
                    ScanState { words: flush(prev.words, run), run: WordView::empty() }
                } else {
                    ScanState { words: prev.words, run }
                }
            },
            None => ScanState { words: flush(prev.words, prev.run), run: WordView::empty() },
        }
    }
}

/// The words of one pass over the whole board, in cursor order.
pub open spec fn pass_words(cells: Seq<Option<char>>, direction: Direction) -> Seq<WordView> {
    scan(cells, direction, INDEX_OVERFLOW as nat).words
}

/// All words of a board: the horizontal pass, then the vertical one.
pub open spec fn all_words(cells: Seq<Option<char>>) -> Seq<WordView> {
    pass_words(cells, Direction::Horizontal) + pass_words(cells, Direction::Vertical)
}

/// A cursor on the board stands on a board index.
pub proof fn lemma_transposed_in_bounds(cursor: int, direction: Direction)
    requires
        0 <= cursor < INDEX_OVERFLOW,
    ensures
        0 <= transposed(cursor, direction) < INDEX_OVERFLOW,
{
    assert(0 <= cursor / 15 < 15);
    assert(0 <= cursor % 15 < 15);
    assert((cursor % 15) * 15 <= 14 * 15) by (nonlinear_arith)
        requires
            0 <= cursor % 15 < 15,
    ;
}

/// Every word a scan yields has two to fifteen letters, one per index; the
/// run in progress holds no more cells than the cursor has read of its line.
pub proof fn lemma_scan_bounds(cells: Seq<Option<char>>, direction: Direction, n: nat)
    requires
        n <= INDEX_OVERFLOW,
        cells.len() == INDEX_OVERFLOW,
    ensures
        scan(cells, direction, n).run.indexes.len() == scan(cells, direction, n).run.text.len(),
        scan(cells, direction, n).run.indexes.len() <= n % (BOARD_SIZE as nat),
        forall|k: int|
            0 <= k < scan(cells, direction, n).words.len() ==> {
                let w = #[trigger] scan(cells, direction, n).words[k];
                &&& 2 <= w.indexes.len() <= BOARD_SIZE
                &&& w.indexes.len() == w.text.len()
            },
    decreases n,
{
    if n > 0 {
        lemma_scan_bounds(cells, direction, (n - 1) as nat);
        lemma_transposed_in_bounds(n - 1, direction);
    }
}

/// A run of filled cells read in one direction. Two words are the same word
/// when they cover the same indexes.
#[derive(Debug, Clone)]
pub struct Word {
    indexes: Vec<usize>,
    string: String,
}

impl View for Word {
    type V = WordView;

    closed spec fn view(&self) -> WordView {
        WordView { indexes: self.indexes@, text: self.string@ }
    }
}

impl Word {
    pub fn new() -> (r: Word)
        ensures
            r@ == WordView::empty(),
    {
        Word { indexes: Vec::new(), string: String::new() }
    }

    pub fn push(&mut self, index: usize, c: char)
        ensures
            final(self)@ == old(self)@.push(index, c),
    {
        self.indexes.push(index);
        self.string.push(c);
    }

    pub fn clear(&mut self)
        ensures
            final(self)@ == WordView::empty(),
    {
        self.indexes.clear();
        self.string = String::new();
    }

    /// A copy of the word.
    pub fn duplicate(&self) -> (r: Word)
        ensures
            r@ == self@,
    {
        let mut indexes: Vec<usize> = Vec::new();
        let mut k: usize = 0;
        while k < self.indexes.len()
            invariant
                k <= self.indexes@.len(),
                indexes@ == self.indexes@.take(k as int),
            decreases self.indexes@.len() - k,
        {
            indexes.push(self.indexes[k]);
            k += 1;
            proof {
                assert(indexes@ =~= self.indexes@.take(k as int));
            }
        }
        proof {
            assert(self.indexes@.take(k as int) =~= self.indexes@);
        }
        Word { indexes, string: self.string.clone() }
    }

    pub fn len(&self) -> (r: usize)
        ensures
            r == self@.indexes.len(),
    {
        self.indexes.len()
    }

    pub fn indexes(&self) -> (r: &Vec<usize>)
        ensures
            r@ == self@.indexes,
    {
        &self.indexes
    }

    pub fn as_string(&self) -> (r: String)
        ensures
            r@ == self@.text,
    {
        self.string.clone()
    }

    pub fn into_string(self) -> (r: String)
        ensures
            r@ == self@.text,
    {
        self.string
    }

    /// Each character of the word beside the index it stands on.
    pub fn char_indicies(&self) -> (r: Vec<(char, usize)>)
        requires
            self@.indexes.len() == self@.text.len(),
        ensures
            r@.len() == self@.indexes.len(),
            forall|k: int|
                0 <= k < r@.len() ==> #[trigger] r@[k] == (self@.text[k], self@.indexes[k]),
    {
        let mut r: Vec<(char, usize)> = Vec::new();
        let n = self.indexes.len();
        let mut k: usize = 0;
        while k < n
            invariant
                n == self@.indexes.len(),
                self@.indexes.len() == self@.text.len(),
                k <= n,
                r@.len() == k,
                forall|j: int| 0 <= j < k ==> #[trigger] r@[j] == (self@.text[j], self@.indexes[j]),
            decreases n - k,
        {
            proof {
                assert(self.string@ == self@.text);
            }
            r.push((self.string.as_str().get_char(k), self.indexes[k]));
            k += 1;
        }
        r
    }

    /// Whether two words cover the same indexes.
    pub fn same_indexes(&self, other: &Word) -> (r: bool)
        ensures
            r == (self@.indexes == other@.indexes),
    {
        let n = self.indexes.len();
        if n != other.indexes.len() {
            return false;
        }
        let mut k: usize = 0;
        while k < n
            invariant
                n == self@.indexes.len(),
                n == other@.indexes.len(),
                k <= n,
                forall|j: int| 0 <= j < k ==> self@.indexes[j] == other@.indexes[j],
            decreases n - k,
        {
            if self.indexes[k] != other.indexes[k] {
                return false;
            }
            k += 1;
        }
        proof {
            assert(self@.indexes =~= other@.indexes);
        }
        true
    }
}

/// A cursor that reads the words of a source, one line after another.
pub struct Words<'a, S> {
    cursor: usize,
    index: usize,
    direction: Direction,
    source: &'a S,
}

impl<'a, S: GetChar> Words<'a, S> {
    /// The scan in progress holds no partial run: every word read so far has
    /// been handed out.
    pub closed spec fn wf(&self) -> bool {
        &&& self.cursor <= INDEX_OVERFLOW
        &&& self.index == transposed(self.cursor as int, self.direction)
        &&& scan(cells_of(self.source), self.direction, self.cursor as nat).run
            == WordView::empty()
    }

    pub closed spec fn cursor(&self) -> nat {
        self.cursor as nat
    }

    pub closed spec fn direction(&self) -> Direction {
        self.direction
    }

    pub closed spec fn source(&self) -> &'a S {
        self.source
    }

    /// The words handed out so far.
    pub open spec fn read(&self) -> Seq<WordView> {
        scan(cells_of(self.source()), self.direction(), self.cursor()).words
    }

    fn start(source: &'a S, direction: Direction) -> (r: Words<'a, S>)
        ensures
            r.wf(),
            r.cursor() == 0,
            r.direction() == direction,
            r.source() == source,
    {
        Words { cursor: 0, index: 0, direction, source }
    }

    pub fn horizontal(source: &'a S) -> (r: Words<'a, S>)
        ensures
            r.wf(),
            r.cursor() == 0,
            r.direction() == Direction::Horizontal,
            r.source() == source,
    {
        Self::start(source, Direction::Horizontal)
    }

    pub fn vertical(source: &'a S) -> (r: Words<'a, S>)
        ensures
            r.wf(),
            r.cursor() == 0,
            r.direction() == Direction::Vertical,
            r.source() == source,
    {
        Self::start(source, Direction::Vertical)
    }

    fn advance(&mut self)
        requires
            old(self).cursor < INDEX_OVERFLOW,
        ensures
            final(self).cursor == old(self).cursor + 1,
            final(self).index == transposed(final(self).cursor as int, final(self).direction),
            final(self).direction == old(self).direction,
            final(self).source == old(self).source,
    {
        self.cursor += 1;
        self.index = transpose_index(self.cursor, &self.direction);
    }

    /// The next word of the scan, or `None` once the last cell has been read.
    #[verifier::rlimit(50)]
    pub fn next_word(&mut self) -> (r: Option<Word>)
        requires
            old(self).wf(),
        ensures
            final(self).wf(),
            final(self).direction() == old(self).direction(),
            final(self).source() == old(self).source(),
            match r {
                Some(w) => {
                    &&& final(self).cursor() > old(self).cursor()
                    &&& final(self).read() == old(self).read().push(w@)
                },
                None => {
                    &&& final(self).cursor() == INDEX_OVERFLOW
                    &&& final(self).read() == old(self).read()
                },
            },
    {
        let ghost cells = cells_of(self.source);
        let ghost start = self.cursor;
        let ghost words = scan(cells, self.direction, start as nat).words;
        let mut current = Word::new();
        while self.cursor < INDEX_OVERFLOW
            invariant
                cells == cells_of(self.source),
                start <= self.cursor <= INDEX_OVERFLOW,
                self.index == transposed(self.cursor as int, self.direction),
                self.direction == old(self).direction,
                self.source == old(self).source,
                scan(cells, self.direction, self.cursor as nat).words == words,
                scan(cells, self.direction, self.cursor as nat).run == current@,
                words == scan(cells, self.direction, start as nat).words,
                start == old(self).cursor,
                words == old(self).read(),
            decreases INDEX_OVERFLOW - self.cursor,
        {
            proof {
                lemma_scan_bounds(cells, self.direction, self.cursor as nat);
                lemma_transposed_in_bounds(self.cursor as int, self.direction);
            }
            let c = self.source.get_char(self.index);
            match c {
                Some(ch) => {
                    current.push(self.index, ch);
                    self.advance();
                    if self.cursor % BOARD_SIZE == 0 {
                        if current.len() >= 2 {
                            return Some(current);
                        }
                        current.clear();
                    }
                },
                None => {
                    self.advance();
                    if current.len() >= 2 {
                        return Some(current);
                    }
                    current.clear();
                },
            }
        }
        None
    }

    /// All remaining words of the scan, in order.
    pub fn collect_words(&mut self) -> (r: Vec<Word>)
        requires
            old(self).wf(),
        ensures
            final(self).wf(),
            final(self).cursor() == INDEX_OVERFLOW,
            final(self).direction() == old(self).direction(),
            final(self).source() == old(self).source(),
            old(self).read() + r@.map_values(|w: Word| w@) == final(self).read(),
    {
        let mut r: Vec<Word> = Vec::new();
        let ghost before = self.read();
        loop
            invariant
                self.wf(),
                self.direction() == old(self).direction(),
                self.source() == old(self).source(),
                before == old(self).read(),
                before + r@.map_values(|w: Word| w@) == self.read(),
            decreases INDEX_OVERFLOW - self.cursor(),
        {
            match self.next_word() {
                Some(w) => {
                    r.push(w);
                    proof {
                        assert(before + r@.map_values(|w: Word| w@) =~= self.read());
                    }
                },
                None => {
                    return r;
                },
            }
        }
    }
}

/// The words of a source: each row read left to right, then each column top
/// to bottom.
pub fn scan_words<S: GetChar>(source: &S) -> (r: Vec<Word>)
    ensures
        r@.map_values(|w: Word| w@) == all_words(cells_of(source)),
        forall|k: int|
            0 <= k < r@.len() ==> {
                let w = #[trigger] r@[k]@;
                &&& 2 <= w.indexes.len() <= BOARD_SIZE
                &&& w.indexes.len() == w.text.len()
            },
{
    let mut horizontal = Words::horizontal(source);
    let mut r = horizontal.collect_words();
    let mut vertical = Words::vertical(source);
    let mut v = vertical.collect_words();
    r.append(&mut v);
    proof {
        let cells = cells_of(source);
        assert(r@.map_values(|w: Word| w@) =~= all_words(cells));
        lemma_scan_bounds(cells, Direction::Horizontal, INDEX_OVERFLOW as nat);
        lemma_scan_bounds(cells, Direction::Vertical, INDEX_OVERFLOW as nat);
        assert forall|k: int| 0 <= k < r@.len() implies {
            let w = #[trigger] r@[k]@;
            &&& 2 <= w.indexes.len() <= BOARD_SIZE
            &&& w.indexes.len() == w.text.len()
        } by {
            assert(r@.map_values(|w: Word| w@)[k] == r@[k]@);
        }
    }
    r
}

/// Scanning depends on nothing but the characters of the source: two
/// sources that show the same characters everywhere yield the same words,
/// in the same order, so scanning an unchanged board again yields what it
/// yielded before.
pub proof fn lemma_scan_repeatable<S: GetChar>(first: &S, second: &S)
    requires
        forall|i: int| 0 <= i < INDEX_OVERFLOW ==> first.char_at(i) == second.char_at(i),
    ensures
        all_words(cells_of(first)) == all_words(cells_of(second)),
{
    assert(cells_of(first) =~= cells_of(second));
}

} // verus!
