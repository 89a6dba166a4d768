use vstd::prelude::*;

use crate::error::Error;
use crate::tile::{tile_char, Tile};
use crate::words::{GetChar, BOARD_SIZE};

verus! {

/// The tile that a list of placements puts at `index`: the first placement there.
pub open spec fn placed_tile(tiles: Seq<(usize, Tile)>, index: int) -> Option<Tile>
    decreases tiles.len(),
{
    if tiles.len() == 0 {
        None
    } else {
        match placed_tile(tiles.drop_last(), index) {
            Some(t) => Some(t),
            None => if tiles.last().0 == index {
                Some(tiles.last().1)
            } else {
                None
            },
        }
    }
}

/// The character that a list of placements shows at `index`.
pub open spec fn placed_char(tiles: Seq<(usize, Tile)>, index: int) -> Option<char> {
    match placed_tile(tiles, index) {
        Some(t) => tile_char(t),
        None => None,
    }
}

/// No two placements share an index.
pub open spec fn indexes_unique(tiles: Seq<(usize, Tile)>) -> bool {
    forall|j: int, k: int| 0 <= j < k < tiles.len() ==> tiles[j].0 != tiles[k].0
}

/// The placements lie in one column.
pub open spec fn same_column(tiles: Seq<(usize, Tile)>) -> bool {
    forall|j: int|
        0 <= j < tiles.len() ==> #[trigger] tiles[j].0 % BOARD_SIZE == tiles[0].0 % BOARD_SIZE
}

/// The placements lie in one row.
pub open spec fn same_row(tiles: Seq<(usize, Tile)>) -> bool {
    forall|j: int|
        0 <= j < tiles.len() ==> #[trigger] tiles[j].0 / BOARD_SIZE == tiles[0].0 / BOARD_SIZE
}

/// There is at least one placement, and all of them share a row or a column.
pub open spec fn is_linear(tiles: Seq<(usize, Tile)>) -> bool {
    tiles.len() > 0 && (same_column(tiles) || same_row(tiles))
}

/// The shape error of a list of placements, if any: duplicate indexes come
/// first, then placements outside a single line.
pub open spec fn shape_error(tiles: Seq<(usize, Tile)>) -> Option<Error> {
    if !indexes_unique(tiles) {
        Some(Error::TurnIndexesNotUnique)
    } else if !is_linear(tiles) {
        Some(Error::TurnNotLinear)
    } else {
        None
    }
}

/// The value of a decimal numeral of ASCII digits, if it is one.
pub open spec fn decimal_value(s: Seq<char>) -> Option<nat>
    decreases s.len(),
{
    if s.len() == 0 {
        None
    } else if !('0' <= s.last() <= '9') {
        None
    } else {
        let d = (s.last() as nat - '0' as nat) as nat;
        if s.len() == 1 {
            Some(d)
        } else {
            match decimal_value(s.drop_last()) {
                Some(v) => Some(v * 10 + d),
                None => None,
            }
        }
    }
}

/// The placements written as pairs of a board index in decimal and a tile code.
pub open spec fn pairs_placements(pairs: Seq<(Seq<char>, Seq<char>)>) -> Result<
    Seq<(usize, Tile)>,
    Error,
>
    decreases pairs.len(),
{
    if pairs.len() == 0 {
        Ok(seq![])
    } else {
        match pairs_placements(pairs.drop_last()) {
            Err(e) => Err(e),
            Ok(tiles) => {
                let (key, code) = pairs.last();
                match decimal_value(key) {
                    Some(v) if v <= usize::MAX => if code.len() == 1 {
                        Ok(tiles.push((v as usize, Tile::Char(code[0]))))
                    } else {
                        Err(Error::TileParse)
                    },
                    _ => Err(Error::TurnParse),
                }
            },
        }
    }
}

/// A move proposed by a player: tiles to place at board indexes.
#[derive(Debug, Clone)]
pub struct Turn {
    tiles: Vec<(usize, Tile)>,
}

impl View for Turn {
    type V = Seq<(usize, Tile)>;

    closed spec fn view(&self) -> Seq<(usize, Tile)> {
        self.tiles@
    }
}

impl Turn {
    pub fn new(tiles: Vec<(usize, Tile)>) -> (r: Turn)
        ensures
            r@ == tiles@,
    {
        Turn { tiles }
    }

    pub fn tiles(&self) -> (r: &Vec<(usize, Tile)>)
        ensures
            r@ == self@,
    {
        &self.tiles
    }

    pub fn len(&self) -> (r: usize)
        ensures
            r == self@.len(),
    {
        self.tiles.len()
    }

    /// Reads a turn from pairs of a board index in decimal and a tile code, as
    /// they come over the wire.
    pub fn from_pairs(pairs: &Vec<(String, String)>) -> (r: Result<Turn, Error>)
        ensures
            pairs_placements(pairs@.map_values(|p: (String, String)| (p.0@, p.1@))) matches Ok(
                t,
            ) ==> r matches Ok(turn) && turn@ == t,
            pairs_placements(pairs@.map_values(|p: (String, String)| (p.0@, p.1@))) matches Err(
                e,
            ) ==> r == Err::<Turn, Error>(e),
    {
        let ghost view = pairs@.map_values(|p: (String, String)| (p.0@, p.1@));
        let mut tiles: Vec<(usize, Tile)> = Vec::new();
        let mut k: usize = 0;
        while k < pairs.len()
            invariant
                view == pairs@.map_values(|p: (String, String)| (p.0@, p.1@)),
                k <= pairs.len(),
                pairs_placements(view.take(k as int)) == Ok::<Seq<(usize, Tile)>, Error>(tiles@),
            decreases pairs.len() - k,
        {
            proof {
                assert(view.take(k as int + 1).drop_last() =~= view.take(k as int));
            }
            let index = match parse_decimal(pairs[k].0.as_str()) {
                Some(v) => v,
                None => {
                    proof {
                        assert(view.take(k as int + 1).last() == view[k as int]);
                        lemma_placements_err_prefix(view, k as int + 1);
                    }
                    return Err(Error::TurnParse);
                },
            };
            let tile = match Tile::parse_code(pairs[k].1.as_str()) {
                Ok(t) => t,
                Err(e) => {
                    proof {
                        assert(view.take(k as int + 1).last() == view[k as int]);
                        lemma_placements_err_prefix(view, k as int + 1);
                    }
                    return Err(e);
                },
            };
            tiles.push((index, tile));
            k += 1;
        }
        proof {
            assert(view.take(k as int) =~= view);
        }
        Ok(Turn { tiles })
    }

    pub fn indexes(&self) -> (r: Vec<usize>)
        ensures
            r@ == self@.map_values(|p: (usize, Tile)| p.0),
    {
        let mut r: Vec<usize> = Vec::new();
        let mut k: usize = 0;
        while k < self.tiles.len()
            invariant
                k <= self@.len(),
                r@ == self@.take(k as int).map_values(|p: (usize, Tile)| p.0),
            decreases self@.len() - k,
        {
            r.push(self.tiles[k].0);
            k += 1;
            proof {
                assert(r@ =~= self@.take(k as int).map_values(|p: (usize, Tile)| p.0));
            }
        }
        proof {
            assert(self@.take(k as int) =~= self@);
        }
        r
    }

    /// A turn of seven tiles or more empties a full rack.
    pub fn is_bingo(&self) -> (r: bool)
        ensures
            r == (self@.len() >= 7),
    {
        self.tiles.len() >= 7
    }

    pub fn validate(&self) -> (r: Result<(), Error>)
        ensures
            match shape_error(self@) {
                Some(e) => r == Err::<(), Error>(e),
                None => r is Ok,
            },
    {
        self.validate_unique_indexes()?;
        self.validate_linear()?;
        Ok(())
    }

    pub fn validate_unique_indexes(&self) -> (r: Result<(), Error>)
        ensures
            indexes_unique(self@) ==> r is Ok,
            !indexes_unique(self@) ==> r matches Err(Error::TurnIndexesNotUnique),
    {
        let n = self.tiles.len();
        let mut k: usize = 0;
        while k < n
            invariant
                n == self@.len(),
                k <= n,
                forall|a: int, b: int| 0 <= a < b < n && a < k ==> self@[a].0 != self@[b].0,
            decreases n - k,
        {
            let mut j: usize = k + 1;
            while j < n
                invariant
                    n == self@.len(),
                    k < j <= n,
                    forall|a: int, b: int| 0 <= a < b < n && a < k ==> self@[a].0 != self@[b].0,
                    forall|b: int| k < b < j ==> self@[k as int].0 != self@[b].0,
                decreases n - j,
            {
                if self.tiles[k].0 == self.tiles[j].0 {
                    return Err(Error::TurnIndexesNotUnique);
                }
                j += 1;
            }
            k += 1;
        }
        Ok(())
    }

    pub fn validate_linear(&self) -> (r: Result<(), Error>)
        ensures
            is_linear(self@) ==> r is Ok,
            !is_linear(self@) ==> r matches Err(Error::TurnNotLinear),
    {
        let n = self.tiles.len();
        if n == 0 {
            return Err(Error::TurnNotLinear);
        }
        let first = self.tiles[0].0;
        let mut column = true;
        let mut row = true;
        let mut k: usize = 0;
        while k < n
            invariant
                n == self@.len(),
                n > 0,
                first == self@[0].0,
                k <= n,
                column == (forall|j: int|
                    0 <= j < k ==> #[trigger] self@[j].0 % BOARD_SIZE == first % BOARD_SIZE),
                row == (forall|j: int|
                    0 <= j < k ==> #[trigger] self@[j].0 / BOARD_SIZE == first / BOARD_SIZE),
            decreases n - k,
        {
            let index = self.tiles[k].0;
            if index % BOARD_SIZE != first % BOARD_SIZE {
                column = false;
            }
            if index / BOARD_SIZE != first / BOARD_SIZE {
                row = false;
            }
            k += 1;
        }
        if column || row {
            Ok(())
        } else {
            Err(Error::TurnNotLinear)
        }
    }

    pub fn get_tile(&self, index: &usize) -> (r: Option<&Tile>)
        ensures
            match placed_tile(self@, *index as int) {
                Some(t) => r matches Some(x) && *x == t,
                None => r is None,
            },
    {
        let mut k: usize = 0;
        while k < self.tiles.len()
            invariant
                k <= self@.len(),
                placed_tile(self@.take(k as int), *index as int) is None,
            decreases self@.len() - k,
        {
            proof {
                assert(self@.take(k as int + 1).drop_last() =~= self@.take(k as int));
            }
            if self.tiles[k].0 == *index {
                proof {
                    lemma_placed_tile_prefix(self@, k as int + 1, *index as int);
                }
                return Some(&self.tiles[k].1);
            }
            k += 1;
        }
        proof {
            assert(self@.take(k as int) =~= self@);
        }
        None
    }
}

impl GetChar for Turn {
    open spec fn char_at(&self, index: int) -> Option<char> {
        placed_char(self@, index)
    }

    fn get_char(&self, index: usize) -> (r: Option<char>) {
        match self.get_tile(&index) {
            Some(tile) => tile.as_char(),
            None => None,
        }
    }
}

/// Once a prefix places a tile at an index, the whole list places that tile there.
pub proof fn lemma_placed_tile_prefix(tiles: Seq<(usize, Tile)>, n: int, index: int)
    requires
        0 <= n <= tiles.len(),
        placed_tile(tiles.take(n), index) is Some,
    ensures
        placed_tile(tiles, index) == placed_tile(tiles.take(n), index),
    decreases tiles.len() - n,
{
    if n < tiles.len() {
        assert(tiles.take(n + 1).drop_last() =~= tiles.take(n));
        lemma_placed_tile_prefix(tiles, n + 1, index);
    } else {
        assert(tiles.take(n) =~= tiles);
    }
}

/// Once a prefix of the pairs fails to read, the whole list fails the same way.
pub proof fn lemma_placements_err_prefix(pairs: Seq<(Seq<char>, Seq<char>)>, n: int)
    requires
        0 <= n <= pairs.len(),
        pairs_placements(pairs.take(n)) is Err,
    ensures
        pairs_placements(pairs) == pairs_placements(pairs.take(n)),
    decreases pairs.len() - n,
{
    if n < pairs.len() {
        assert(pairs.take(n + 1).drop_last() =~= pairs.take(n));
        lemma_placements_err_prefix(pairs, n + 1);
    } else {
        assert(pairs.take(n) =~= pairs);
    }
}

/// Reads a decimal numeral of ASCII digits that fits in `usize`.
pub fn parse_decimal(s: &str) -> (r: Option<usize>)
    ensures
        match decimal_value(s@) {
            Some(v) => if v <= usize::MAX {
                r == Some(v as usize)
            } else {
                r is None
            },
            None => r is None,
        },
{
    let n = s.unicode_len();
    if n == 0 {
        return None;
    }
    let mut value: usize = 0;
    let mut k: usize = 0;
    while k < n
        invariant
            n == s@.len(),
            n > 0,
            k <= n,
            k == 0 ==> value == 0,
            k > 0 ==> decimal_value(s@.take(k as int)) == Some(value as nat),
        decreases n - k,
    {
        let c = s.get_char(k);
        proof {
            assert(s@.take(k as int + 1).drop_last() =~= s@.take(k as int));
            assert(s@.take(k as int + 1).last() == c);
        }
        if !('0' <= c && c <= '9') {
            proof {
                lemma_decimal_prefix_none(s@, k as int + 1);
            }
            return None;
        }
        let d = (c as u32 - '0' as u32) as usize;
        if value > (usize::MAX - d) / 10 {
            proof {
                lemma_decimal_prefix_large(s@, k as int + 1);
            }
            return None;
        }
        value = value * 10 + d;
        k += 1;
    }
    proof {
        assert(s@.take(k as int) =~= s@);
    }
    Some(value)
}

/// A numeral with a non-digit in a prefix has no value.
pub proof fn lemma_decimal_prefix_none(s: Seq<char>, n: int)
    requires
        1 <= n <= s.len(),
        decimal_value(s.take(n)) is None,
    ensures
        decimal_value(s) is None,
    decreases s.len() - n,
{
    if n < s.len() {
        assert(s.take(n + 1).drop_last() =~= s.take(n));
        lemma_decimal_prefix_none(s, n + 1);
    } else {
        assert(s.take(n) =~= s);
    }
}

/// Digits only add to the value of a numeral, so a prefix too large for
/// `usize` makes the whole numeral too large.
pub proof fn lemma_decimal_prefix_large(s: Seq<char>, n: int)
    requires
        1 <= n <= s.len(),
        decimal_value(s.take(n)) is None || decimal_value(s.take(n))->0 > usize::MAX,
    ensures
        decimal_value(s) is None || decimal_value(s)->0 > usize::MAX,
    decreases s.len() - n,
{
    if n < s.len() {
        assert(s.take(n + 1).drop_last() =~= s.take(n));
        lemma_decimal_prefix_large(s, n + 1);
    } else {
        assert(s.take(n) =~= s);
    }
}

} // verus!
