use vstd::prelude::*;

use rand::seq::SliceRandom;
use rand::Rng;

use crate::tile::Tile;

verus! {

/// Relies on rand's `SliceRandom::shuffle`, driven by the thread-local
/// generator: it reorders the items by swaps and keeps every one of them.
#[verifier::external_body]
fn shuffle_tiles(tiles: &mut Vec<Tile>)
    ensures
        final(tiles)@.to_multiset() == old(tiles)@.to_multiset(),
        final(tiles)@.len() == old(tiles)@.len(),
{
    tiles.shuffle(&mut rand::thread_rng());
}

/// Relies on rand's `Rng::gen_range` over `0..n`, driven by the thread-local
/// generator: a number below `n`; it panics when the range is empty.
#[verifier::external_body]
pub(crate) fn random_index(n: usize) -> (r: usize)
    requires
        n > 0,
    ensures
        r < n,
{
    rand::thread_rng().gen_range(0..n)
}

/// Each tile of the standard English set, with its number of copies.
pub open spec fn standard_table() -> Seq<(Tile, nat)> {
    seq![
        (Tile::Char('A'), 9), (Tile::Char('B'), 2), (Tile::Char('C'), 2), (Tile::Char('D'), 4),
        (Tile::Char('E'), 12), (Tile::Char('F'), 2), (Tile::Char('G'), 3), (Tile::Char('H'), 2),
        (Tile::Char('I'), 9), (Tile::Char('J'), 1), (Tile::Char('K'), 1), (Tile::Char('L'), 4),
        (Tile::Char('M'), 2), (Tile::Char('N'), 6), (Tile::Char('O'), 8), (Tile::Char('P'), 2),
        (Tile::Char('Q'), 1), (Tile::Char('R'), 6), (Tile::Char('S'), 4), (Tile::Char('T'), 6),
        (Tile::Char('U'), 4), (Tile::Char('V'), 2), (Tile::Char('W'), 2), (Tile::Char('X'), 1),
        (Tile::Char('Y'), 2), (Tile::Char('Z'), 1), (Tile::Blank(None), 2),
    ]
}

/// The tiles a table of counts stands for, entry after entry.
pub open spec fn expand(table: Seq<(Tile, nat)>) -> Seq<Tile>
    decreases table.len(),
{
    if table.len() == 0 {
        seq![]
    } else {
        expand(table.drop_last()) + Seq::new(table.last().1, |_i: int| table.last().0)
    }
}

/// The supply of undrawn tiles; it is drawn from the end.
#[derive(Clone, Debug)]
pub struct Bag(Vec<Tile>);

impl View for Bag {
    type V = Seq<Tile>;

    closed spec fn view(&self) -> Seq<Tile> {
        self.0@
    }
}

impl Bag {
    /// A bag holding these tiles; the last one is drawn first.
    pub fn new(tiles: Vec<Tile>) -> (r: Bag)
        ensures
            r@ == tiles@,
    {
        Bag(tiles)
    }

    pub fn len(&self) -> (r: usize)
        ensures
            r == self@.len(),
    {
        self.0.len()
    }

    pub fn tiles(&self) -> (r: &Vec<Tile>)
        ensures
            r@ == self@,
    {
        &self.0
    }

    /// Draws the last tile, if any.
    pub fn pop(&mut self) -> (r: Option<Tile>)
        ensures
            old(self)@.len() == 0 ==> r is None && final(self)@ == old(self)@,
            old(self)@.len() > 0 ==> r == Some(old(self)@.last()) && final(self)@
                == old(self)@.drop_last(),
    {
        self.0.pop()
    }

    /// Puts tiles back and mixes the bag.
    pub fn put_back(&mut self, tiles: &Vec<Tile>)
        ensures
            final(self)@.to_multiset() == (old(self)@ + tiles@).to_multiset(),
            final(self)@.len() == old(self)@.len() + tiles@.len(),
    {
        let mut k: usize = 0;
        let ghost start = self.0@;
        while k < tiles.len()
            invariant
                k <= tiles@.len(),
                self.0@ == start + tiles@.take(k as int),
            decreases tiles@.len() - k,
        {
            self.0.push(tiles[k]);
            k += 1;
            proof {
                assert(self.0@ =~= start + tiles@.take(k as int));
            }
        }
        proof {
            assert(tiles@.take(k as int) =~= tiles@);
        }
        shuffle_tiles(&mut self.0);
    }

    /// The standard English set of one hundred tiles, in random order.
    pub fn standard() -> (r: Bag)
        ensures
            r@.to_multiset() == expand(standard_table()).to_multiset(),
    {
        let table: Vec<(Tile, usize)> = vec![
            (Tile::Char('A'), 9), (Tile::Char('B'), 2), (Tile::Char('C'), 2), (Tile::Char('D'), 4),
            (Tile::Char('E'), 12), (Tile::Char('F'), 2), (Tile::Char('G'), 3), (Tile::Char('H'), 2),
            (Tile::Char('I'), 9), (Tile::Char('J'), 1), (Tile::Char('K'), 1), (Tile::Char('L'), 4),
            (Tile::Char('M'), 2), (Tile::Char('N'), 6), (Tile::Char('O'), 8), (Tile::Char('P'), 2),
            (Tile::Char('Q'), 1), (Tile::Char('R'), 6), (Tile::Char('S'), 4), (Tile::Char('T'), 6),
            (Tile::Char('U'), 4), (Tile::Char('V'), 2), (Tile::Char('W'), 2), (Tile::Char('X'), 1),
            (Tile::Char('Y'), 2), (Tile::Char('Z'), 1), (Tile::Blank(None), 2),
        ];
        let ghost spec_table = table@.map_values(|e: (Tile, usize)| (e.0, e.1 as nat));
        proof {
            assert(spec_table =~= standard_table());
        }
        let mut tiles: Vec<Tile> = Vec::new();
        let mut k: usize = 0;
        while k < table.len()
            invariant
                spec_table == table@.map_values(|e: (Tile, usize)| (e.0, e.1 as nat)),
                k <= table@.len(),
                tiles@ == expand(spec_table.take(k as int)),
            decreases table@.len() - k,
        {
            let (tile, count) = table[k];
            let ghost before = tiles@;
            let mut j: usize = 0;
            while j < count
                invariant
                    j <= count,
                    tiles@ == before + Seq::new(j as nat, |_i: int| tile),
                decreases count - j,
            {
                tiles.push(tile);
                j += 1;
                proof {
                    assert(tiles@ =~= before + Seq::new(j as nat, |_i: int| tile));
                }
            }
            proof {
                let next = spec_table.take(k as int + 1);
                assert(next.drop_last() =~= spec_table.take(k as int));
                assert(next.last() == (tile, count as nat));
            }
            k += 1;
        }
        proof {
            assert(spec_table.take(k as int) =~= spec_table);
        }
        shuffle_tiles(&mut tiles);
        Bag(tiles)
    }
}

} // verus!
