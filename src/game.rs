use vstd::prelude::*;

use crate::bag::{expand, random_index, standard_table, Bag};
use crate::board::{board_ok, laid, standard_layout, Board};
use crate::error::Error;
use crate::score::{turn_score, Overlay, TurnScore};
use crate::tile::{score_tile, tile_char, tile_label, tile_value, Square, Tile};
use crate::turn::{shape_error, Turn};
use crate::words::{BOARD_CENTER, BOARD_SIZE, INDEX_OVERFLOW};

verus! {

/// The most tiles a rack holds.
pub const RACK_SIZE: usize = 7;

/// Where a game is in its life: gathering players, under way, or finished.
#[derive(Clone, Copy, Debug, PartialEq, Eq, Structural)]
pub enum State {
    Pre,
    Started,
    Over,
}

/// A player, known by a display name that is unique within a game.
#[derive(Clone, Debug, PartialEq, Eq)]
pub struct Player(pub String);

impl Player {
    pub fn new(name: &str) -> (r: Player)
        ensures
            r.0@ == name@,
    {
        Player(String::from_str(name))
    }

    pub fn as_str(&self) -> (r: &str)
        ensures
            r@ == self.0@,
    {
        self.0.as_str()
    }
}

/// The tiles one player holds.
pub type Rack = Vec<Tile>;

/// A placed tile can be paid with a rack tile: a letter with the same
/// letter, a blank given a letter with an unassigned blank.
pub open spec fn tile_fits(placed: Tile, held: Tile) -> bool {
    match placed {
        Tile::Char(c) => held == Tile::Char(c),
        Tile::Blank(Some(_)) => held == Tile::Blank(None),
        Tile::Blank(None) => false,
    }
}

/// The first position of a rack whose tile pays for a placed tile.
pub open spec fn first_fit(rack: Seq<Tile>, placed: Tile) -> Option<int>
    decreases rack.len(),
{
    if rack.len() == 0 {
        None
    } else if tile_fits(placed, rack[0]) {
        Some(0)
    } else {
        match first_fit(rack.drop_first(), placed) {
            Some(p) => Some(p + 1),
            None => None,
        }
    }
}

/// The rack left after paying for placed tiles one by one, each with the
/// first rack tile that fits; or the first placed tile that none pays for.
pub open spec fn spend(rack: Seq<Tile>, tiles: Seq<Tile>) -> Result<Seq<Tile>, Tile>
    decreases tiles.len(),
{
    if tiles.len() == 0 {
        Ok(rack)
    } else {
        match first_fit(rack, tiles[0]) {
            Some(p) => spend(rack.remove(p), tiles.drop_first()),
            None => Err(tiles[0]),
        }
    }
}

/// The tiles of a turn, in order.
pub open spec fn placed_tiles(t: Seq<(usize, Tile)>) -> Seq<Tile> {
    t.map_values(|p: (usize, Tile)| p.1)
}

/// A tile stands on the cell.
pub open spec fn occupied(b: Seq<Square>, index: int) -> bool {
    0 <= index < b.len() && b[index] is Tile
}

/// Why a tile cannot go on a cell, if it cannot.
pub open spec fn cell_fault(b: Seq<Square>, index: usize) -> Option<Error> {
    if index >= INDEX_OVERFLOW {
        Some(Error::IndexOutOfBounds)
    } else if occupied(b, index as int) {
        Some(Error::SquareOccupied(index))
    } else {
        None
    }
}

/// The fault of the first placement of a turn that cannot go on its cell.
pub open spec fn placement_fault(b: Seq<Square>, t: Seq<(usize, Tile)>) -> Option<Error>
    decreases t.len(),
{
    if t.len() == 0 {
        None
    } else {
        match placement_fault(b, t.drop_last()) {
            Some(e) => Some(e),
            None => cell_fault(b, t.last().0),
        }
    }
}

/// Cell `n` is next to cell `i` in its row or its column.
pub open spec fn adjacent(i: int, n: int) -> bool {
    ||| (n == i - 1 && i >= 1 && (i - 1) / (BOARD_SIZE as int) == i / (BOARD_SIZE as int))
    ||| (n == i + 1 && (i + 1) / (BOARD_SIZE as int) == i / (BOARD_SIZE as int))
    ||| (n == i - BOARD_SIZE && i >= BOARD_SIZE)
    ||| (n == i + BOARD_SIZE && i + BOARD_SIZE < INDEX_OVERFLOW)
}

/// A turn covers the center cell, or one of its cells is next to a tile
/// already on the board.
pub open spec fn connected(b: Seq<Square>, t: Seq<(usize, Tile)>) -> bool {
    ||| exists|k: int| 0 <= k < t.len() && (#[trigger] t[k]).0 == BOARD_CENTER
    ||| exists|k: int, n: int|
        0 <= k < t.len() && adjacent((#[trigger] t[k]).0 as int, n) && #[trigger] occupied(b, n)
}

/// A game as a value.
pub struct GameView {
    pub board: Seq<Square>,
    pub players: Seq<Seq<char>>,
    pub player_index: int,
    pub bag: Seq<Tile>,
    pub racks: Seq<Seq<Tile>>,
    pub scores: Seq<Seq<Seq<(Seq<char>, int)>>>,
    pub state: State,
    pub size: nat,
    pub board_type: Seq<char>,
    pub name: Seq<char>,
    pub pkid: Option<i64>,
}

/// What holds of every game: one rack and one score history per player,
/// unique names, racks of at most seven tiles, and a current player once
/// the game has started.
pub open spec fn game_ok(g: GameView) -> bool {
    &&& board_ok(g.board)
    &&& g.racks.len() == g.players.len()
    &&& g.scores.len() == g.players.len()
    &&& forall|i: int| 0 <= i < g.racks.len() ==> (#[trigger] g.racks[i]).len() <= RACK_SIZE
    &&& forall|i: int, j: int|
        0 <= i < j < g.players.len() ==> g.players[i] != g.players[j]
    &&& g.state != State::Pre ==> 0 <= g.player_index < g.players.len()
}

/// Why the current player cannot play a turn, if they cannot: its shape,
/// then its cells, then its connection to the board, then the rack.
pub open spec fn turn_fault(g: GameView, t: Seq<(usize, Tile)>) -> Option<Error> {
    match shape_error(t) {
        Some(e) => Some(e),
        None => match placement_fault(g.board, t) {
            Some(e) => Some(e),
            None => if !connected(g.board, t) {
                Some(Error::NotConnected)
            } else {
                match spend(g.racks[g.player_index], placed_tiles(t)) {
                    Err(tile) => Some(Error::NoTileToSpend(tile)),
                    Ok(_) => None,
                }
            },
        },
    }
}

/// A rack and the bag after drawing from the end of the bag until the rack
/// holds seven tiles or the bag is empty.
pub open spec fn refill(rack: Seq<Tile>, bag: Seq<Tile>) -> (Seq<Tile>, Seq<Tile>)
    decreases bag.len(),
{
    if rack.len() >= RACK_SIZE || bag.len() == 0 {
        (rack, bag)
    } else {
        refill(rack.push(bag.last()), bag.drop_last())
    }
}

/// The points of the tiles of a rack.
pub open spec fn rack_points(rack: Seq<Tile>) -> int
    decreases rack.len(),
{
    if rack.len() == 0 {
        0
    } else {
        rack_points(rack.drop_last()) + tile_value(rack.last())
    }
}

/// The label of the entry that charges a player for the tiles left at the end.
pub open spec fn remaining_label() -> Seq<char> {
    seq!['(', 'r', 'e', 'm', 'a', 'i', 'n', 'i', 'n', 'g', ' ', 't', 'i', 'l', 'e', 's', ')']
}

/// A score history after the end of the game: when tiles are left on the
/// rack, one entry worth minus their points (nothing for blanks).
pub open spec fn charged(
    history: Seq<Seq<(Seq<char>, int)>>,
    rack: Seq<Tile>,
) -> Seq<Seq<(Seq<char>, int)>> {
    if rack.len() > 0 {
        history.push(seq![(remaining_label(), -rack_points(rack))])
    } else {
        history
    }
}

/// The game ends once the bag is empty and some rack is empty.
pub open spec fn game_complete(g: GameView) -> bool {
    g.bag.len() == 0 && exists|i: int| 0 <= i < g.racks.len() && (#[trigger] g.racks[i]).len() == 0
}

/// A game after the check for its end: when complete it is over, and every
/// player is charged for the tiles left on their rack.
pub open spec fn closed_out(g: GameView) -> GameView {
    if game_complete(g) {
        GameView {
            state: State::Over,
            scores: Seq::new(g.scores.len(), |i: int| charged(g.scores[i], g.racks[i])),
            ..g
        }
    } else {
        g
    }
}

/// A game with the turn passed to the next player.
pub open spec fn advanced(g: GameView) -> GameView {
    GameView { player_index: (g.player_index + 1) % g.players.len() as int, ..g }
}

/// A game after the current player's valid turn: its score recorded, its
/// tiles paid from the rack and laid on the board, the rack refilled, the
/// turn passed on, and the end checked.
pub open spec fn committed(g: GameView, t: Seq<(usize, Tile)>) -> GameView {
    let p = g.player_index;
    let spent = spend(g.racks[p], placed_tiles(t))->Ok_0;
    let (rack, bag) = refill(spent, g.bag);
    closed_out(
        advanced(
            GameView {
                board: laid(g.board, t),
                racks: g.racks.update(p, rack),
                bag,
                scores: g.scores.update(p, g.scores[p].push(turn_score(g.board, t))),
                ..g
            },
        ),
    )
}

/// The game: board, players with their racks and score histories, the
/// bag, whose turn it is, and where the game is in its life.
#[derive(Clone, Debug)]
pub struct Game {
    board: Board,
    players: Vec<Player>,
    player_index: usize,
    bag: Bag,
    racks: Vec<Rack>,
    scores: Vec<Vec<TurnScore>>,
    state: State,
    size: usize,
    board_type: String,
    pkid: Option<i64>,
    name: String,
}

impl View for Game {
    type V = GameView;

    closed spec fn view(&self) -> GameView {
        GameView {
            board: self.board@,
            players: self.players@.map_values(|p: Player| p.0@),
            player_index: self.player_index as int,
            bag: self.bag@,
            racks: self.racks@.map_values(|r: Rack| r@),
            scores: self.scores@.map_values(|h: Vec<TurnScore>| h@.map_values(|s: TurnScore| s@)),
            state: self.state,
            size: self.size as nat,
            board_type: self.board_type@,
            name: self.name@,
            pkid: self.pkid,
        }
    }
}

impl Game {
    pub open spec fn wf(&self) -> bool {
        game_ok(self@)
    }

    /// A game waiting for players, on the standard board, drawing from `bag`.
    pub fn with_bag(bag: Bag) -> (r: Game)
        ensures
            r.wf(),
            r@.board == standard_layout(),
            r@.players.len() == 0,
            r@.bag == bag@,
            r@.state == State::Pre,
            r@.size == BOARD_SIZE,
            r@.board_type == seq!['s', 't', 'a', 'n', 'd', 'a', 'r', 'd'],
            r@.name.len() == 0,
            r@.pkid is None,
    {
        let g = Game {
            board: Board::standard_board(),
            players: Vec::new(),
            player_index: 0,
            bag,
            racks: Vec::new(),
            scores: Vec::new(),
            state: State::Pre,
            size: BOARD_SIZE,
            board_type: String::from_str("standard"),
            pkid: None,
            name: String::new(),
        };
        proof {
            reveal_strlit("standard");
            assert(g@.board_type =~= seq!['s', 't', 'a', 'n', 'd', 'a', 'r', 'd']);
            assert(g@.players =~= Seq::<Seq<char>>::empty());
            assert(g@.racks =~= Seq::<Seq<Tile>>::empty());
            assert(g@.scores =~= Seq::<Seq<Seq<(Seq<char>, int)>>>::empty());
        }
        g
    }

    /// A game named `name`, waiting for players, with a shuffled standard bag.
    pub fn new(name: &str) -> (r: Game)
        ensures
            r.wf(),
            r@.board == standard_layout(),
            r@.players.len() == 0,
            r@.bag.to_multiset() == expand(standard_table()).to_multiset(),
            r@.state == State::Pre,
            r@.size == BOARD_SIZE,
            r@.board_type == seq!['s', 't', 'a', 'n', 'd', 'a', 'r', 'd'],
            r@.name == name@,
            r@.pkid is None,
    {
        let mut g = Game::with_bag(Bag::standard());
        g.name = String::from_str(name);
        g
    }

    pub fn name(&self) -> (r: &str)
        ensures
            r@ == self@.name,
    {
        self.name.as_str()
    }

    /// The storage id of the game, once it has been saved.
    pub fn pkid(&self) -> (r: Option<i64>)
        ensures
            r == self@.pkid,
    {
        self.pkid
    }

    /// Records the storage id under which the game was first saved.
    pub fn set_pkid(&mut self, id: i64)
        ensures
            final(self)@ == (GameView { pkid: Some(id), ..old(self)@ }),
    {
        self.pkid = Some(id);
    }

    pub fn board(&self) -> (r: &Board)
        ensures
            r@ == self@.board,
    {
        &self.board
    }

    pub fn bag(&self) -> (r: &Bag)
        ensures
            r@ == self@.bag,
    {
        &self.bag
    }

    pub fn players(&self) -> (r: &Vec<Player>)
        ensures
            r@.map_values(|p: Player| p.0@) == self@.players,
    {
        &self.players
    }

    pub fn racks(&self) -> (r: &Vec<Rack>)
        ensures
            r@.map_values(|r: Rack| r@) == self@.racks,
    {
        &self.racks
    }

    pub fn scores(&self) -> (r: &Vec<Vec<TurnScore>>)
        ensures
            r@.map_values(|h: Vec<TurnScore>| h@.map_values(|s: TurnScore| s@)) == self@.scores,
    {
        &self.scores
    }

    pub fn player_index(&self) -> (r: usize)
        ensures
            r == self@.player_index,
    {
        self.player_index
    }

    pub fn size(&self) -> (r: usize)
        ensures
            r == self@.size,
    {
        self.size
    }

    pub fn board_type(&self) -> (r: &str)
        ensures
            r@ == self@.board_type,
    {
        self.board_type.as_str()
    }

    /// Whether the game has reached its end: the bag is empty and so is some rack.
    pub fn check_complete(&self) -> (r: bool)
        ensures
            r == game_complete(self@),
    {
        if self.bag.len() != 0 {
            return false;
        }
        let mut k: usize = 0;
        while k < self.racks.len()
            invariant
                self@.bag.len() == 0,
                k <= self.racks@.len(),
                forall|j: int| 0 <= j < k ==> self@.racks[j].len() != 0,
            decreases self.racks@.len() - k,
        {
            if self.racks[k].len() == 0 {
                proof {
                    assert(self@.racks[k as int] == self.racks@[k as int]@);
                    assert(self@.racks[k as int].len() == 0);
                    assert(self@.bag.len() == 0);
                }
                return true;
            }
            k += 1;
        }
        false
    }

    pub fn state(&self) -> (r: State)
        ensures
            r == self@.state,
    {
        self.state
    }

    pub fn is_over(&self) -> (r: bool)
        ensures
            r == (self@.state == State::Over),
    {
        self.state == State::Over
    }

    /// The name of the player whose turn it is, while the game is under way.
    pub fn current_player(&self) -> (r: Option<&str>)
        requires
            self.wf(),
        ensures
            self@.state == State::Started ==> (r matches Some(s) && s@ == self@.players[self@.player_index]),
            self@.state != State::Started ==> r is None,
    {
        match self.state {
            State::Started => Some(self.players[self.player_index].as_str()),
            _ => None,
        }
    }

    pub fn rack(&self, index: usize) -> (r: Result<&Rack, Error>)
        ensures
            index < self@.racks.len() ==> (r matches Ok(rack) && rack@ == self@.racks[index as int]),
            index >= self@.racks.len() ==> r matches Err(Error::IndexOutOfBounds),
    {
        if index < self.racks.len() {
            Ok(&self.racks[index])
        } else {
            Err(Error::IndexOutOfBounds)
        }
    }
}

/// Whether a rack tile pays for a placed tile.
fn fits(placed: &Tile, held: &Tile) -> (r: bool)
    ensures
        r == tile_fits(*placed, *held),
{
    match *placed {
        Tile::Char(c) => *held == Tile::Char(c),
        Tile::Blank(Some(_)) => *held == Tile::Blank(None),
        Tile::Blank(None) => false,
    }
}

/// The first position of the rack whose tile pays for `placed`.
fn find_fit(rack: &Vec<Tile>, placed: &Tile) -> (r: Option<usize>)
    ensures
        match first_fit(rack@, *placed) {
            Some(p) => r matches Some(x) && x as int == p,
            None => r is None,
        },
{
    let mut k: usize = 0;
    while k < rack.len()
        invariant
            k <= rack@.len(),
            forall|j: int| 0 <= j < k ==> !tile_fits(*placed, #[trigger] rack@[j]),
        decreases rack@.len() - k,
    {
        if fits(placed, &rack[k]) {
            proof {
                lemma_first_fit(rack@, *placed, k as int);
            }
            return Some(k);
        }
        k += 1;
    }
    proof {
        lemma_first_fit(rack@, *placed, k as int);
    }
    None
}

/// The first fitting position is the first position whose tile fits.
pub proof fn lemma_first_fit(rack: Seq<Tile>, placed: Tile, p: int)
    requires
        0 <= p <= rack.len(),
        forall|j: int| 0 <= j < p ==> !tile_fits(placed, #[trigger] rack[j]),
    ensures
        p < rack.len() && tile_fits(placed, rack[p]) ==> first_fit(rack, placed) == Some(p),
        p == rack.len() ==> first_fit(rack, placed) is None,
    decreases p,
{
    if p > 0 {
        assert(!tile_fits(placed, rack[0]));
        assert forall|j: int| 0 <= j < p - 1 implies !tile_fits(
            placed,
            #[trigger] rack.drop_first()[j],
        ) by {
            assert(rack.drop_first()[j] == rack[j + 1]);
        }
        lemma_first_fit(rack.drop_first(), placed, p - 1);
    }
}

/// A fitting position lies within the rack.
pub proof fn lemma_first_fit_in_rack(rack: Seq<Tile>, placed: Tile)
    requires
        first_fit(rack, placed) is Some,
    ensures
        0 <= first_fit(rack, placed)->0 < rack.len(),
        tile_fits(placed, rack[first_fit(rack, placed)->0]),
    decreases rack.len(),
{
    if rack.len() > 0 && !tile_fits(placed, rack[0]) {
        lemma_first_fit_in_rack(rack.drop_first(), placed);
    }
}

/// Paying for a turn's tiles, when it succeeds, takes exactly one rack tile
/// per placed tile: the rack is as many tiles shorter as the turn is long.
pub proof fn lemma_spend_len(rack: Seq<Tile>, tiles: Seq<Tile>)
    requires
        spend(rack, tiles) is Ok,
    ensures
        spend(rack, tiles)->Ok_0.len() + tiles.len() == rack.len(),
    decreases tiles.len(),
{
    if tiles.len() > 0 {
        let p = first_fit(rack, tiles[0])->0;
        lemma_first_fit_in_rack(rack, tiles[0]);
        lemma_spend_len(rack.remove(p), tiles.drop_first());
    }
}

/// A copy of a rack.
fn copy_rack(rack: &Rack) -> (r: Rack)
    ensures
        r@ == rack@,
{
    let mut r: Rack = Vec::new();
    let mut k: usize = 0;
    while k < rack.len()
        invariant
            k <= rack@.len(),
            r@ == rack@.take(k as int),
        decreases rack@.len() - k,
    {
        r.push(rack[k]);
        k += 1;
        proof {
            assert(r@ =~= rack@.take(k as int));
        }
    }
    proof {
        assert(rack@.take(k as int) =~= rack@);
    }
    r
}

impl Game {
    /// Pays for the tiles of a turn from a rack, taking for each placed tile
    /// the first rack tile that fits.
    pub fn spend_tiles_inner(turn: &Turn, rack: Rack) -> (r: Result<Rack, Error>)
        ensures
            match spend(rack@, placed_tiles(turn@)) {
                Ok(left) => r matches Ok(x) && x@ == left,
                Err(tile) => r == Err::<Rack, Error>(Error::NoTileToSpend(tile)),
            },
    {
        let tiles = turn.tiles();
        let ghost ts = placed_tiles(turn@);
        let ghost start = rack@;
        let mut left = rack;
        let mut k: usize = 0;
        proof {
            assert(ts.skip(0) =~= ts);
        }
        while k < tiles.len()
            invariant
                tiles@ == turn@,
                ts == placed_tiles(turn@),
                start == rack@,
                k <= tiles@.len(),
                spend(start, ts) == spend(left@, ts.skip(k as int)),
            decreases tiles@.len() - k,
        {
            let tile = tiles[k].1;
            proof {
                assert(ts.skip(k as int)[0] == tile);
                assert(ts.skip(k as int).drop_first() =~= ts.skip(k as int + 1));
            }
            match find_fit(&left, &tile) {
                None => {
                    proof {
                        assert(ts.skip(k as int).len() > 0);
                        assert(spend(left@, ts.skip(k as int)) == Err::<Seq<Tile>, Tile>(tile));
                        assert(spend(start, ts) == Err::<Seq<Tile>, Tile>(tile));
                    }
                    return Err(Error::NoTileToSpend(tile));
                },
                Some(p) => {
                    let ghost before = left@;
                    proof {
                        lemma_first_fit_in_rack(left@, tile);
                        assert(first_fit(before, tile) == Some(p as int));
                        assert(ts.skip(k as int)[0] == tile);
                    }
                    left.remove(p);
                    proof {
                        assert(ts.skip(k as int).len() > 0);
                        assert(spend(before, ts.skip(k as int)) == spend(
                            before.remove(p as int),
                            ts.skip(k as int).drop_first(),
                        ));
                    }
                },
            }
            k += 1;
        }
        proof {
            assert(ts.skip(k as int) =~= Seq::<Tile>::empty());
        }
        Ok(left)
    }

    /// The cells next to `index` in its row and its column.
    pub fn connected_indexes(index: usize) -> (r: Vec<usize>)
        requires
            index < INDEX_OVERFLOW,
        ensures
            forall|j: int| 0 <= j < r@.len() ==> adjacent(index as int, #[trigger] r@[j] as int),
            forall|n: int| adjacent(index as int, n) ==> r@.contains(n as usize),
            r@.no_duplicates(),
    {
        let mut r: Vec<usize> = Vec::new();
        let row = index / BOARD_SIZE;
        if index >= 1 && (index - 1) / BOARD_SIZE == row {
            r.push(index - 1);
        }
        let ghost at_right = r@.len();
        if (index + 1) / BOARD_SIZE == row {
            r.push(index + 1);
        }
        let ghost at_up = r@.len();
        if index >= BOARD_SIZE {
            r.push(index - BOARD_SIZE);
        }
        let ghost at_down = r@.len();
        if index + BOARD_SIZE < INDEX_OVERFLOW {
            r.push(index + BOARD_SIZE);
        }
        proof {
            assert forall|n: int| adjacent(index as int, n) implies r@.contains(n as usize) by {
                if n == index - 1 && index >= 1 && (index - 1) / 15 == index / 15 {
                    assert(r@[0] == n);
                } else if n == index + 1 && (index + 1) / 15 == index / 15 {
                    assert(r@[at_right as int] == n);
                } else if n == index - 15 && index >= 15 {
                    assert(r@[at_up as int] == n);
                } else {
                    assert(r@[at_down as int] == n);
                }
            }
        }
        r
    }

    /// Whether a tile stands on the cell.
    fn is_occupied(&self, index: usize) -> (r: bool)
        ensures
            r == occupied(self@.board, index as int),
    {
        match self.board.get_square(&index) {
            Some(Square::Tile(_)) => true,
            _ => false,
        }
    }

    /// Checks that a turn covers the center cell or touches a tile on the board.
    pub fn validate_connected(&self, turn: &Turn) -> (r: Result<(), Error>)
        requires
            forall|k: int| 0 <= k < turn@.len() ==> (#[trigger] turn@[k]).0 < INDEX_OVERFLOW,
        ensures
            connected(self@.board, turn@) ==> r is Ok,
            !connected(self@.board, turn@) ==> r matches Err(Error::NotConnected),
    {
        let tiles = turn.tiles();
        let mut k: usize = 0;
        while k < tiles.len()
            invariant
                tiles@ == turn@,
                k <= tiles@.len(),
                forall|j: int| 0 <= j < k ==> (#[trigger] turn@[j]).0 != BOARD_CENTER,
            decreases tiles@.len() - k,
        {
            if tiles[k].0 == BOARD_CENTER {
                return Ok(());
            }
            k += 1;
        }
        let mut k: usize = 0;
        while k < tiles.len()
            invariant
                tiles@ == turn@,
                forall|j: int| 0 <= j < turn@.len() ==> (#[trigger] turn@[j]).0 < INDEX_OVERFLOW,
                forall|j: int| 0 <= j < turn@.len() ==> (#[trigger] turn@[j]).0 != BOARD_CENTER,
                k <= tiles@.len(),
                forall|j: int, n: int|
                    0 <= j < k && adjacent((#[trigger] turn@[j]).0 as int, n) ==> !#[trigger] occupied(
                        self@.board,
                        n,
                    ),
            decreases tiles@.len() - k,
        {
            let index = tiles[k].0;
            let near = Self::connected_indexes(index);
            let mut q: usize = 0;
            while q < near.len()
                invariant
                    tiles@ == turn@,
                    k < tiles@.len(),
                    index == turn@[k as int].0,
                    forall|j: int| 0 <= j < near@.len() ==> adjacent(index as int, #[trigger] near@[j] as int),
                    q <= near@.len(),
                    forall|m: int| 0 <= m < q ==> !occupied(self@.board, #[trigger] near@[m] as int),
                decreases near@.len() - q,
            {
                if self.is_occupied(near[q]) {
                    proof {
                        assert(adjacent(turn@[k as int].0 as int, near@[q as int] as int));
                    }
                    return Ok(());
                }
                q += 1;
            }
            proof {
                assert forall|j: int, n: int|
                    0 <= j < k + 1 && adjacent((#[trigger] turn@[j]).0 as int, n) implies !#[trigger] occupied(
                    self@.board,
                    n,
                ) by {
                    if j == k {
                        assert(near@.contains(n as usize));
                        let m = choose|m: int| 0 <= m < near@.len() && near@[m] == n as usize;
                        assert(!occupied(self@.board, near@[m] as int));
                    }
                }
            }
            k += 1;
        }
        Err(Error::NotConnected)
    }

    /// Checks a turn of the current player against the board and their rack,
    /// without changing anything.
    pub fn validate_turn(&self, turn: &Turn) -> (r: Result<(), Error>)
        requires
            self.wf(),
            self@.state != State::Pre,
        ensures
            match turn_fault(self@, turn@) {
                Some(e) => r == Err::<(), Error>(e),
                None => r is Ok,
            },
    {
        turn.validate()?;
        let tiles = turn.tiles();
        let mut k: usize = 0;
        while k < tiles.len()
            invariant
                tiles@ == turn@,
                k <= tiles@.len(),
                placement_fault(self@.board, turn@.take(k as int)) is None,
                shape_error(turn@) is None,
                forall|j: int| 0 <= j < k ==> (#[trigger] turn@[j]).0 < INDEX_OVERFLOW,
            decreases tiles@.len() - k,
        {
            let index = tiles[k].0;
            proof {
                assert(turn@.take(k as int + 1).drop_last() =~= turn@.take(k as int));
            }
            if index >= INDEX_OVERFLOW {
                proof {
                    lemma_placement_fault_prefix(self@.board, turn@, k as int + 1);
                }
                return Err(Error::IndexOutOfBounds);
            }
            if self.is_occupied(index) {
                proof {
                    lemma_placement_fault_prefix(self@.board, turn@, k as int + 1);
                }
                return Err(Error::SquareOccupied(index));
            }
            k += 1;
        }
        proof {
            assert(turn@.take(k as int) =~= turn@);
        }
        self.validate_connected(turn)?;
        let rack = copy_rack(&self.racks[self.player_index]);
        proof {
            assert(rack@ == self@.racks[self@.player_index]);
        }
        match Self::spend_tiles_inner(turn, rack) {
            Ok(_) => Ok(()),
            Err(e) => Err(e),
        }
    }
}

/// Once a prefix of a turn has a bad placement, the turn has that fault.
pub proof fn lemma_placement_fault_prefix(b: Seq<Square>, t: Seq<(usize, Tile)>, n: int)
    requires
        0 <= n <= t.len(),
        placement_fault(b, t.take(n)) is Some,
    ensures
        placement_fault(b, t) == placement_fault(b, t.take(n)),
    decreases t.len() - n,
{
    if n < t.len() {
        assert(t.take(n + 1).drop_last() =~= t.take(n));
        lemma_placement_fault_prefix(b, t, n + 1);
    } else {
        assert(t.take(n) =~= t);
    }
}

/// Refilling draws tiles from the bag to the rack one for one, and leaves a
/// rack of at most seven tiles that is full unless the bag ran out.
pub proof fn lemma_refill(rack: Seq<Tile>, bag: Seq<Tile>)
    requires
        rack.len() <= RACK_SIZE,
    ensures
        refill(rack, bag).0.len() <= RACK_SIZE,
        refill(rack, bag).0.len() + refill(rack, bag).1.len() == rack.len() + bag.len(),
        refill(rack, bag).0.len() == RACK_SIZE || refill(rack, bag).1.len() == 0,
    decreases bag.len(),
{
    if rack.len() < RACK_SIZE && bag.len() > 0 {
        lemma_refill(rack.push(bag.last()), bag.drop_last());
    }
}

/// A turn without a bad placement lies on free cells of the board.
pub proof fn lemma_placements_free(b: Seq<Square>, t: Seq<(usize, Tile)>)
    requires
        placement_fault(b, t) is None,
    ensures
        forall|k: int|
            0 <= k < t.len() ==> (#[trigger] t[k]).0 < INDEX_OVERFLOW && !occupied(b, t[k].0 as int),
    decreases t.len(),
{
    if t.len() > 0 {
        lemma_placements_free(b, t.drop_last());
        assert forall|k: int| 0 <= k < t.len() implies (#[trigger] t[k]).0 < INDEX_OVERFLOW
            && !occupied(b, t[k].0 as int) by {
            if k < t.len() - 1 {
                assert(t.drop_last()[k] == t[k]);
            }
        }
    }
}

/// The points of a rack of at most seven tiles.
fn rack_score(rack: &Rack) -> (r: i64)
    requires
        rack@.len() <= RACK_SIZE,
    ensures
        r == rack_points(rack@),
        0 <= r <= 70,
{
    let mut sum: i64 = 0;
    let mut k: usize = 0;
    while k < rack.len()
        invariant
            rack@.len() <= RACK_SIZE,
            k <= rack@.len(),
            sum == rack_points(rack@.take(k as int)),
            0 <= sum <= 10 * k,
        decreases rack@.len() - k,
    {
        proof {
            assert(rack@.take(k as int + 1).drop_last() =~= rack@.take(k as int));
        }
        sum = sum + score_tile(&rack[k]) as i64;
        k += 1;
    }
    proof {
        assert(rack@.take(k as int) =~= rack@);
    }
    sum
}

/// The tile a rack gives up to pay for a placed tile.
pub open spec fn paid_with(placed: Tile) -> Tile {
    match placed {
        Tile::Char(c) => Tile::Char(c),
        Tile::Blank(_) => Tile::Blank(None),
    }
}

impl Game {
    /// Draws tiles for one rack until it holds seven or the bag is empty.
    fn fill_rack_at(&mut self, index: usize)
        requires
            index < old(self)@.racks.len(),
            old(self).racks@.len() == old(self)@.racks.len(),
        ensures
            final(self)@ == (GameView {
                racks: old(self)@.racks.update(
                    index as int,
                    refill(old(self)@.racks[index as int], old(self)@.bag).0,
                ),
                bag: refill(old(self)@.racks[index as int], old(self)@.bag).1,
                ..old(self)@
            }),
    {
        let ghost target = refill(old(self)@.racks[index as int], old(self)@.bag);
        let mut rack = self.racks.remove(index);
        proof {
            assert(rack@ == old(self)@.racks[index as int]);
        }
        while rack.len() < RACK_SIZE && self.bag.len() > 0
            invariant
                refill(rack@, self.bag@) == target,
                self.racks@ == old(self).racks@.remove(index as int),
                self.board == old(self).board,
                self.players == old(self).players,
                self.scores == old(self).scores,
                self.state == old(self).state,
                self.player_index == old(self).player_index,
                self.size == old(self).size,
                self.board_type == old(self).board_type,
                self.name == old(self).name,
                self.pkid == old(self).pkid,
            decreases self.bag@.len(),
        {
            match self.bag.pop() {
                Some(tile) => rack.push(tile),
                None => {},
            }
        }
        self.racks.insert(index, rack);
        proof {
            assert(self.racks@ =~= old(self).racks@.update(index as int, rack));
            assert(self@.racks =~= old(self)@.racks.update(index as int, target.0));
        }
    }

    /// Adds a player while the game has not started. A name already in the
    /// game gives back its index, whatever the state.
    pub fn add_player(&mut self, player: Player) -> (r: Result<usize, Error>)
        requires
            old(self).wf(),
        ensures
            final(self).wf(),
            (exists|i: int| 0 <= i < old(self)@.players.len() && old(self)@.players[i] == player.0@)
                ==> (r matches Ok(i) && i < old(self)@.players.len() && old(self)@.players[i as int]
                == player.0@ && final(self)@ == old(self)@),
            !(exists|i: int|
                0 <= i < old(self)@.players.len() && old(self)@.players[i] == player.0@) ==> {
                if old(self)@.state != State::Pre {
                    &&& r matches Err(Error::AlreadyStarted)
                    &&& final(self)@ == old(self)@
                } else {
                    let (rack, bag) = refill(seq![], old(self)@.bag);
                    &&& r == Ok::<usize, Error>(old(self)@.players.len() as usize)
                    &&& final(self)@ == (GameView {
                        players: old(self)@.players.push(player.0@),
                        racks: old(self)@.racks.push(rack),
                        scores: old(self)@.scores.push(seq![]),
                        bag,
                        ..old(self)@
                    })
                }
            },
    {
        let mut k: usize = 0;
        while k < self.players.len()
            invariant
                self@ == old(self)@,
                self.wf(),
                k <= self@.players.len(),
                forall|j: int| 0 <= j < k ==> self@.players[j] != player.0@,
            decreases self@.players.len() - k,
        {
            if self.players[k].0 == player.0 {
                proof {
                    assert(self@.players[k as int] == self.players@[k as int].0@);
                }
                return Ok(k);
            }
            k += 1;
        }
        if self.state != State::Pre {
            return Err(Error::AlreadyStarted);
        }
        let ghost name = player.0@;
        self.players.push(player);
        let index = self.players.len() - 1;
        self.scores.push(Vec::new());
        self.racks.push(Vec::new());
        proof {
            assert(self.scores@.last()@.map_values(|s: TurnScore| s@) =~= seq![]);
            assert(self@.players =~= old(self)@.players.push(name));
            assert(self@.scores =~= old(self)@.scores.push(seq![]));
            assert(self@.racks =~= old(self)@.racks.push(seq![]));
        }
        self.fill_rack_at(index);
        proof {
            lemma_refill(seq![], old(self)@.bag);
            assert(self@.racks =~= old(self)@.racks.push(refill(seq![], old(self)@.bag).0));
        }
        Ok(index)
    }

    /// Starts the game with the given first player.
    pub fn start_with(&mut self, first: usize) -> (r: Result<(), Error>)
        requires
            old(self).wf(),
            first < old(self)@.players.len(),
        ensures
            final(self).wf(),
            old(self)@.state == State::Over ==> (r matches Err(Error::GameOver) && final(self)@
                == old(self)@),
            old(self)@.state != State::Over ==> r is Ok && final(self)@ == (GameView {
                state: State::Started,
                player_index: first as int,
                ..old(self)@
            }),
    {
        if self.state == State::Over {
            return Err(Error::GameOver);
        }
        self.player_index = first;
        self.state = State::Started;
        Ok(())
    }

    /// Starts the game, picking the first player at random. Every player
    /// was dealt a rack on joining.
    pub fn start(&mut self) -> (r: Result<(), Error>)
        requires
            old(self).wf(),
            old(self)@.players.len() > 0,
        ensures
            final(self).wf(),
            old(self)@.state == State::Over ==> (r matches Err(Error::GameOver) && final(self)@
                == old(self)@),
            old(self)@.state != State::Over ==> r is Ok && final(self)@ == (GameView {
                state: State::Started,
                player_index: final(self)@.player_index,
                ..old(self)@
            }) && 0 <= final(self)@.player_index < old(self)@.players.len(),
    {
        let first = random_index(self.players.len());
        self.start_with(first)
    }

    /// Hands the turn to the next player.
    fn next_player(&mut self)
        requires
            old(self)@.players.len() > 0,
            0 <= old(self)@.player_index < old(self)@.players.len(),
        ensures
            final(self)@ == advanced(old(self)@),
            0 <= final(self)@.player_index < final(self)@.players.len(),
    {
        let n = self.players.len();
        proof {
            assert(n == old(self)@.players.len());
        }
        self.player_index = (self.player_index + 1) % n;
    }

    /// Pays for a turn from the current player's rack.
    pub fn spend_tiles(&mut self, turn: &Turn) -> (r: Result<(), Error>)
        requires
            old(self).wf(),
            old(self)@.state != State::Pre,
        ensures
            match spend(old(self)@.racks[old(self)@.player_index], placed_tiles(turn@)) {
                Ok(left) => r is Ok && final(self)@ == (GameView {
                    racks: old(self)@.racks.update(old(self)@.player_index, left),
                    ..old(self)@
                }),
                Err(tile) => r == Err::<(), Error>(Error::NoTileToSpend(tile)) && final(self)@
                    == old(self)@,
            },
    {
        let rack = copy_rack(&self.racks[self.player_index]);
        match Self::spend_tiles_inner(turn, rack) {
            Ok(new_rack) => {
                self.racks.set(self.player_index, new_rack);
                proof {
                    assert(self@.racks =~= old(self)@.racks.update(
                        old(self)@.player_index,
                        new_rack@,
                    ));
                }
                Ok(())
            },
            Err(e) => Err(e),
        }
    }

    /// Appends a score to one player's history.
    fn record_score(&mut self, index: usize, score: TurnScore)
        requires
            index < old(self)@.scores.len(),
            old(self).scores@.len() == old(self)@.scores.len(),
        ensures
            final(self)@ == (GameView {
                scores: old(self)@.scores.update(
                    index as int,
                    old(self)@.scores[index as int].push(score@),
                ),
                ..old(self)@
            }),
    {
        let mut history = self.scores.remove(index);
        let ghost before = history@;
        history.push(score);
        self.scores.insert(index, history);
        proof {
            assert(self.scores@ =~= old(self).scores@.update(index as int, history));
            assert(history@.map_values(|s: TurnScore| s@) =~= old(self)@.scores[index as int].push(
                score@,
            ));
            assert(self@.scores =~= old(self)@.scores.update(
                index as int,
                old(self)@.scores[index as int].push(score@),
            ));
        }
    }

    /// Ends the game when it is complete, charging every player for the
    /// tiles left on their rack.
    fn check_game_over(&mut self)
        requires
            game_ok(old(self)@),
            old(self)@.state == State::Started,
        ensures
            final(self)@ == closed_out(old(self)@),
            game_ok(final(self)@),
    {
        if !self.check_complete() {
            return;
        }
        self.state = State::Over;
        let label = String::from_str("(remaining tiles)");
        proof {
            reveal_strlit("(remaining tiles)");
            assert(label@ =~= remaining_label());
        }
        let ghost start = self@;
        let mut index: usize = 0;
        while index < self.racks.len()
            invariant
                game_ok(self@),
                label@ == remaining_label(),
                start == (GameView { state: State::Over, ..old(self)@ }),
                index <= self@.racks.len(),
                self@.racks == start.racks,
                self@.scores.len() == start.scores.len(),
                self@ == (GameView { scores: self@.scores, ..start }),
                forall|j: int|
                    0 <= j < index ==> self@.scores[j] == charged(start.scores[j], start.racks[j]),
                forall|j: int| index <= j < self@.scores.len() ==> self@.scores[j] == start.scores[j],
            decreases self@.racks.len() - index,
        {
            proof {
                assert(self@.racks[index as int] == self.racks@[index as int]@);
            }
            if self.racks[index].len() > 0 {
                let remaining = rack_score(&self.racks[index]);
                let mut entries: Vec<(String, i64)> = Vec::new();
                entries.push((label.clone(), -remaining));
                let score = TurnScore::new(entries);
                proof {
                    assert(score@ =~= seq![(remaining_label(), -rack_points(start.racks[index as int]))]);
                }
                let ghost before = self@;
                self.record_score(index, score);
                proof {
                    assert(self@.scores =~= before.scores.update(
                        index as int,
                        charged(start.scores[index as int], start.racks[index as int]),
                    ));
                }
            }
            index += 1;
        }
        proof {
            assert(self@.scores =~= Seq::new(
                start.scores.len(),
                |i: int| charged(start.scores[i], start.racks[i]),
            ));
        }
    }
}

/// The tiles a rack gives up to pay for a turn.
fn returned_tiles(turn: &Turn) -> (r: Vec<Tile>)
    ensures
        r@ == placed_tiles(turn@).map_values(|t: Tile| paid_with(t)),
{
    let tiles = turn.tiles();
    let mut r: Vec<Tile> = Vec::new();
    let mut k: usize = 0;
    while k < tiles.len()
        invariant
            tiles@ == turn@,
            k <= tiles@.len(),
            r@ == placed_tiles(turn@).map_values(|t: Tile| paid_with(t)).take(k as int),
        decreases tiles@.len() - k,
    {
        let t = match tiles[k].1 {
            Tile::Char(c) => Tile::Char(c),
            Tile::Blank(_) => Tile::Blank(None),
        };
        r.push(t);
        k += 1;
        proof {
            assert(r@ =~= placed_tiles(turn@).map_values(|t: Tile| paid_with(t)).take(k as int));
        }
    }
    proof {
        assert(placed_tiles(turn@).map_values(|t: Tile| paid_with(t)).take(k as int) =~= placed_tiles(
            turn@,
        ).map_values(|t: Tile| paid_with(t)));
    }
    r
}

impl Game {
    /// Plays a turn of the current player. `illegal_words` holds the words
    /// of the turn that the word list lacks: when there are any, the turn is
    /// lost, nothing is laid and the next player is up. Otherwise the turn is
    /// scored, paid for, laid and the rack refilled, the next player is up,
    /// and the game ends once the bag and some rack are empty.
    pub fn play(&mut self, turn: Turn, illegal_words: Vec<String>) -> (r: Result<(), Error>)
        requires
            old(self).wf(),
        ensures
            final(self).wf(),
            old(self)@.state == State::Pre ==> (r matches Err(Error::NotStarted) && final(self)@
                == old(self)@),
            old(self)@.state == State::Over ==> (r matches Err(Error::GameOver) && final(self)@
                == old(self)@),
            old(self)@.state == State::Started ==> match turn_fault(old(self)@, turn@) {
                Some(e) => r == Err::<(), Error>(e) && final(self)@ == old(self)@,
                None => if illegal_words@.len() > 0 {
                    &&& r == Err::<(), Error>(Error::IllegalWords(illegal_words))
                    &&& final(self)@ == advanced(old(self)@)
                } else {
                    r is Ok && final(self)@ == committed(old(self)@, turn@)
                },
            },
    {
        match self.state {
            State::Pre => {
                return Err(Error::NotStarted);
            },
            State::Over => {
                return Err(Error::GameOver);
            },
            State::Started => {},
        }
        match self.validate_turn(&turn) {
            Err(e) => {
                return Err(e);
            },
            Ok(()) => {},
        }
        if illegal_words.len() > 0 {
            self.next_player();
            return Err(Error::IllegalWords(illegal_words));
        }
        let ghost g = self@;
        let score = match (Overlay { board: &self.board, turn: &turn }).score() {
            Ok(s) => s,
            Err(e) => {
                return Err(e);
            },
        };
        let p = self.player_index;
        self.record_score(p, score);
        let ghost g1 = self@;
        match self.spend_tiles(&turn) {
            Err(e) => {
                return Err(e);
            },
            Ok(()) => {},
        }
        let ghost g2 = self@;
        proof {
            lemma_placements_free(g.board, turn@);
            let left = spend(g.racks[p as int], placed_tiles(turn@))->Ok_0;
            lemma_spend_len(g.racks[p as int], placed_tiles(turn@));
            assert(g2.racks[p as int] == left);
            assert(self.racks@.len() == self@.racks.len());
        }
        let _ = self.board.commit_turn(&turn);
        let ghost g3 = self@;
        self.fill_rack_at(p);
        let ghost g4 = self@;
        proof {
            let left = spend(g.racks[p as int], placed_tiles(turn@))->Ok_0;
            lemma_refill(left, g.bag);
            assert(g4.racks =~= g.racks.update(p as int, refill(left, g.bag).0));
            assert(game_ok(g4));
        }
        self.next_player();
        self.check_game_over();
        proof {
            let left = spend(g.racks[p as int], placed_tiles(turn@))->Ok_0;
            let inner = GameView {
                board: laid(g.board, turn@),
                racks: g.racks.update(p as int, refill(left, g.bag).0),
                bag: refill(left, g.bag).1,
                scores: g.scores.update(p as int, g.scores[p as int].push(turn_score(g.board, turn@))),
                ..g
            };
            assert(g4 == inner);
        }
        Ok(())
    }

    /// Exchanges tiles of the current player's rack for tiles from the bag:
    /// the rack is paid as for a turn and refilled, the tiles given up go
    /// back into the bag, which is mixed, and the next player is up. Nothing
    /// is scored. The bag must hold at least as many tiles as are exchanged.
    pub fn swap(&mut self, turn: Turn) -> (r: Result<(), Error>)
        requires
            old(self).wf(),
        ensures
            final(self).wf(),
            old(self)@.state == State::Pre ==> (r matches Err(Error::NotStarted) && final(self)@
                == old(self)@),
            old(self)@.state == State::Over ==> (r matches Err(Error::GameOver) && final(self)@
                == old(self)@),
            old(self)@.state == State::Started ==> if turn@.len() == 0 || old(self)@.bag.len()
                < turn@.len() {
                r matches Err(Error::CannotSwap) && final(self)@ == old(self)@
            } else {
                match spend(old(self)@.racks[old(self)@.player_index], placed_tiles(turn@)) {
                    Err(tile) => r == Err::<(), Error>(Error::NoTileToSpend(tile)) && final(self)@
                        == old(self)@,
                    Ok(left) => {
                        let (rack, bag) = refill(left, old(self)@.bag);
                        &&& r is Ok
                        &&& final(self)@ == (GameView {
                            bag: final(self)@.bag,
                            ..advanced(
                                GameView {
                                    racks: old(self)@.racks.update(old(self)@.player_index, rack),
                                    ..old(self)@
                                },
                            )
                        })
                        &&& final(self)@.bag.to_multiset() == (bag + placed_tiles(turn@).map_values(
                            |t: Tile| paid_with(t),
                        )).to_multiset()
                    },
                }
            },
    {
        match self.state {
            State::Pre => {
                return Err(Error::NotStarted);
            },
            State::Over => {
                return Err(Error::GameOver);
            },
            State::Started => {},
        }
        if turn.len() == 0 || self.bag.len() < turn.len() {
            return Err(Error::CannotSwap);
        }
        let ghost g = self@;
        match self.spend_tiles(&turn) {
            Err(e) => {
                return Err(e);
            },
            Ok(()) => {},
        }
        let p = self.player_index;
        proof {
            assert(self.racks@.len() == self@.racks.len());
        }
        self.fill_rack_at(p);
        proof {
            let left = spend(g.racks[p as int], placed_tiles(turn@))->Ok_0;
            lemma_spend_len(g.racks[p as int], placed_tiles(turn@));
            lemma_refill(left, g.bag);
            assert(self@.racks =~= g.racks.update(p as int, refill(left, g.bag).0));
        }
        let back = returned_tiles(&turn);
        self.bag.put_back(&back);
        self.next_player();
        Ok(())
    }

    /// Gives up the turn. Allowed only once the bag holds six tiles or fewer.
    pub fn pass(&mut self) -> (r: Result<(), Error>)
        requires
            old(self).wf(),
        ensures
            final(self).wf(),
            old(self)@.state == State::Pre ==> (r matches Err(Error::NotStarted) && final(self)@
                == old(self)@),
            old(self)@.state == State::Over ==> (r matches Err(Error::GameOver) && final(self)@
                == old(self)@),
            old(self)@.state == State::Started && old(self)@.bag.len() > 6 ==> (r matches Err(
                Error::CannotPass,
            ) && final(self)@ == old(self)@),
            old(self)@.state == State::Started && old(self)@.bag.len() <= 6 ==> (r is Ok
                && final(self)@ == advanced(old(self)@)),
    {
        match self.state {
            State::Pre => {
                return Err(Error::NotStarted);
            },
            State::Over => {
                return Err(Error::GameOver);
            },
            State::Started => {},
        }
        if self.bag.len() > 6 {
            return Err(Error::CannotPass);
        }
        self.next_player();
        Ok(())
    }

    /// The score a turn would earn on the current board, without checking
    /// or changing anything.
    pub fn propose(&self, turn: &Turn) -> (r: TurnScore)
        requires
            self.wf(),
        ensures
            r@ == turn_score(self@.board, turn@),
    {
        let overlay = Overlay { board: &self.board, turn };
        match overlay.score() {
            Ok(s) => s,
            Err(_) => TurnScore::new(Vec::new()),
        }
    }
}

/// A turn that passes validation can always be paid for, and paying for it
/// leaves the current player's rack exactly as many tiles shorter as the
/// turn has tiles.
pub proof fn lemma_valid_turn_spends(g: GameView, t: Seq<(usize, Tile)>)
    requires
        game_ok(g),
        g.state == State::Started,
        turn_fault(g, t) is None,
    ensures
        spend(g.racks[g.player_index], placed_tiles(t)) is Ok,
        spend(g.racks[g.player_index], placed_tiles(t))->Ok_0.len() + t.len()
            == g.racks[g.player_index].len(),
{
    lemma_spend_len(g.racks[g.player_index], placed_tiles(t));
}

impl Default for Game {
    fn default() -> (r: Game)
        ensures
            r.wf(),
            r@.board == standard_layout(),
            r@.players.len() == 0,
            r@.bag.to_multiset() == expand(standard_table()).to_multiset(),
            r@.state == State::Pre,
            r@.size == BOARD_SIZE,
            r@.name.len() == 0,
            r@.pkid is None,
    {
        let g = Game::new("");
        proof {
            reveal_strlit("");
        }
        g
    }
}

/// Order of the remaining-tiles list: letters by code point, blanks after
/// every letter.
pub open spec fn key_before(a: Option<char>, b: Option<char>) -> bool {
    match (a, b) {
        (Some(x), Some(y)) => (x as int) < (y as int),
        (Some(_), None) => true,
        _ => false,
    }
}

/// How many tiles of a list show the given letter (`None`: unassigned blanks).
pub open spec fn key_count(tiles: Seq<Tile>, key: Option<char>) -> nat
    decreases tiles.len(),
{
    if tiles.len() == 0 {
        0
    } else {
        key_count(tiles.drop_last(), key) + if tile_char(tiles.last()) == key {
            1nat
        } else {
            0nat
        }
    }
}

/// The text that names a key: the letter, or `BLANK`.
pub open spec fn key_label(key: Option<char>) -> Seq<char> {
    tile_label(Tile::Blank(key))
}

/// The key a label names.
pub open spec fn label_key(label: Seq<char>) -> Option<char> {
    if label == seq!['B', 'L', 'A', 'N', 'K'] {
        None
    } else {
        Some(label[0])
    }
}

/// The tiles of the first `n` racks but rack `skip`, rack after rack.
pub open spec fn other_racks(racks: Seq<Seq<Tile>>, skip: int, n: nat) -> Seq<Tile>
    decreases n,
{
    if n == 0 {
        seq![]
    } else if n - 1 == skip {
        other_racks(racks, skip, (n - 1) as nat)
    } else {
        other_racks(racks, skip, (n - 1) as nat) + racks[n - 1]
    }
}

/// The tiles a player cannot see on their own rack: the other racks and the bag.
pub open spec fn unseen_tiles(g: GameView, player: int) -> Seq<Tile> {
    other_racks(g.racks, player, g.racks.len()) + g.bag
}

/// A list of keys with counts, strictly in order, counting `tiles`, and
/// holding every key that occurs there.
pub open spec fn tallies(entries: Seq<(Option<char>, usize)>, tiles: Seq<Tile>) -> bool {
    &&& forall|i: int, j: int| 0 <= i < j < entries.len() ==> key_before(entries[i].0, entries[j].0)
    &&& forall|i: int|
        0 <= i < entries.len() ==> (#[trigger] entries[i]).1 == key_count(tiles, entries[i].0)
            && entries[i].1 > 0
    &&& forall|m: int|
        0 <= m < tiles.len() ==> exists|i: int|
            0 <= i < entries.len() && (#[trigger] entries[i]).0 == tile_char(#[trigger] tiles[m])
}

/// The order of keys is strict and total.
pub proof fn lemma_key_order(a: Option<char>, b: Option<char>, c: Option<char>)
    ensures
        !key_before(a, a),
        a != b ==> key_before(a, b) || key_before(b, a),
        key_before(a, b) && key_before(b, c) ==> key_before(a, c),
        key_before(a, b) ==> !key_before(b, a),
{
    if a != b {
        match (a, b) {
            (Some(x), Some(y)) => {
                assert(x != y);
                assert((x as int) != (y as int));
            },
            _ => {},
        }
    }
}

/// Counts one more tile in a sorted list of tallies.
fn tally(entries: &mut Vec<(Option<char>, usize)>, tile: Tile, Ghost(seen): Ghost<Seq<Tile>>)
    requires
        tallies(old(entries)@, seen),
        seen.len() < usize::MAX,
    ensures
        tallies(final(entries)@, seen.push(tile)),
{
    let key = tile.as_char();
    let ghost next = seen.push(tile);
    proof {
        assert(next.drop_last() =~= seen);
        assert forall|x: Option<char>| key_count(next, x) == key_count(seen, x) + if x == key {
            1nat
        } else {
            0nat
        } by {}
        lemma_key_count_bound(seen, key);
    }
    let mut q: usize = 0;
    while q < entries.len() && key_before_exec(entries[q].0, key)
        invariant
            q <= entries@.len(),
            forall|i: int| 0 <= i < q ==> key_before(entries@[i].0, key),
        decreases entries@.len() - q,
    {
        q += 1;
    }
    let ghost before = entries@;
    if q < entries.len() && entries[q].0 == key {
        let count = entries[q].1;
        entries.set(q, (key, count + 1));
        proof {
            assert forall|m: int| 0 <= m < next.len() implies exists|i: int|
                0 <= i < entries@.len() && (#[trigger] entries@[i]).0 == tile_char(
                    #[trigger] next[m],
                ) by {
                if m < seen.len() {
                    assert(next[m] == seen[m]);
                    let i = choose|i: int|
                        0 <= i < before.len() && (#[trigger] before[i]).0 == tile_char(seen[m]);
                    assert(entries@[i].0 == before[i].0);
                } else {
                    assert(entries@[q as int].0 == key);
                }
            }
        }
    } else {
        entries.insert(q, (key, 1));
        proof {
            assert forall|i: int, j: int| 0 <= i < j < entries@.len() implies key_before(
                entries@[i].0,
                entries@[j].0,
            ) by {
                if q < before.len() {
                    lemma_key_order(key, before[q as int].0, before[q as int].0);
                    assert(key != before[q as int].0);
                    assert(!key_before(before[q as int].0, key));
                }
                if j == q {
                    assert(key_before(before[i].0, key));
                } else if i == q {
                    lemma_key_order(key, before[q as int].0, before[j - 1].0);
                    if j - 1 > q {
                        assert(key_before(before[q as int].0, before[j - 1].0));
                    }
                } else if i < q && j > q {
                    lemma_key_order(before[i].0, key, before[j - 1].0);
                    lemma_key_order(key, before[q as int].0, before[j - 1].0);
                    if j - 1 > q {
                        assert(key_before(before[q as int].0, before[j - 1].0));
                    }
                }
            }
            assert forall|i: int| 0 <= i < entries@.len() implies (#[trigger] entries@[i]).1
                == key_count(next, entries@[i].0) && entries@[i].1 > 0 by {
                if i != q {
                    let k = if i < q { i } else { i - 1 };
                    assert(entries@[i] == before[k]);
                    if before[k].0 == key {
                        if k < q {
                            lemma_key_order(key, key, key);
                        } else {
                            lemma_key_order(key, before[q as int].0, before[k].0);
                            if k > q {
                                assert(key_before(before[q as int].0, before[k].0));
                            }
                            if q < before.len() {
                                assert(key != before[q as int].0);
                                assert(!key_before(before[q as int].0, key));
                            }
                        }
                    }
                } else {
                    assert(key_count(seen, key) == 0) by {
                        if key_count(seen, key) > 0 {
                            lemma_key_count_witness(seen, key);
                            let m = choose|m: int| 0 <= m < seen.len() && tile_char(seen[m]) == key;
                            let k = choose|k: int|
                                0 <= k < before.len() && (#[trigger] before[k]).0 == tile_char(
                                    #[trigger] seen[m],
                                );
                            if k < q {
                                lemma_key_order(key, key, key);
                            } else {
                                lemma_key_order(key, before[q as int].0, before[k].0);
                                if k > q {
                                    assert(key_before(before[q as int].0, before[k].0));
                                }
                                assert(key != before[q as int].0);
                                assert(!key_before(before[q as int].0, key));
                            }
                        }
                    }
                }
            }
            assert forall|m: int| 0 <= m < next.len() implies exists|i: int|
                0 <= i < entries@.len() && (#[trigger] entries@[i]).0 == tile_char(
                    #[trigger] next[m],
                ) by {
                if m < seen.len() {
                    assert(next[m] == seen[m]);
                    let k = choose|k: int|
                        0 <= k < before.len() && (#[trigger] before[k]).0 == tile_char(seen[m]);
                    if k < q {
                        assert(entries@[k].0 == before[k].0);
                    } else {
                        assert(entries@[k + 1].0 == before[k].0);
                    }
                } else {
                    assert(entries@[q as int].0 == key);
                }
            }
        }
    }
}

/// A key counted in a list occurs in it.
pub proof fn lemma_key_count_witness(tiles: Seq<Tile>, key: Option<char>)
    requires
        key_count(tiles, key) > 0,
    ensures
        exists|m: int| 0 <= m < tiles.len() && tile_char(tiles[m]) == key,
    decreases tiles.len(),
{
    if tile_char(tiles.last()) != key {
        lemma_key_count_witness(tiles.drop_last(), key);
        let m = choose|m: int| 0 <= m < tiles.len() - 1 && tile_char(tiles.drop_last()[m]) == key;
        assert(tiles[m] == tiles.drop_last()[m]);
    }
}

/// A list holds no more tiles of a key than tiles.
pub proof fn lemma_key_count_bound(tiles: Seq<Tile>, key: Option<char>)
    ensures
        key_count(tiles, key) <= tiles.len(),
    decreases tiles.len(),
{
    if tiles.len() > 0 {
        lemma_key_count_bound(tiles.drop_last(), key);
    }
}

fn key_before_exec(a: Option<char>, b: Option<char>) -> (r: bool)
    ensures
        r == key_before(a, b),
{
    match (a, b) {
        (Some(x), Some(y)) => x < y,
        (Some(_), None) => true,
        _ => false,
    }
}

/// The tiles of fewer racks are no more than those of more racks.
pub proof fn lemma_other_racks_grow(racks: Seq<Seq<Tile>>, skip: int, j: nat, n: nat)
    requires
        j <= n,
    ensures
        other_racks(racks, skip, j).len() <= other_racks(racks, skip, n).len(),
    decreases n - j,
{
    if j < n {
        lemma_other_racks_grow(racks, skip, j, (n - 1) as nat);
    }
}

/// The label of a key names that key.
pub proof fn lemma_label_key(key: Option<char>)
    ensures
        label_key(key_label(key)) == key,
{
    if let Some(c) = key {
        assert(key_label(key) =~= seq![c]);
        assert(key_label(key).len() == 1);
    } else {
        assert(key_label(key) =~= seq!['B', 'L', 'A', 'N', 'K']);
    }
}

impl Game {
    /// The tiles a player cannot see, on the other racks and in the bag,
    /// counted per letter: letters in order, blanks last.
    pub fn remaining_tiles(&self, player_index: usize) -> (r: Vec<(String, usize)>)
        requires
            self.wf(),
            unseen_tiles(self@, player_index as int).len() < usize::MAX,
        ensures
            ({
                let pool = unseen_tiles(self@, player_index as int);
                &&& forall|i: int|
                    0 <= i < r@.len() ==> {
                        let key = label_key((#[trigger] r@[i]).0@);
                        &&& r@[i].0@ == key_label(key)
                        &&& r@[i].1 == key_count(pool, key)
                        &&& r@[i].1 > 0
                    }
                &&& forall|i: int, j: int|
                    0 <= i < j < r@.len() ==> key_before(label_key(r@[i].0@), label_key(r@[j].0@))
                &&& forall|m: int|
                    0 <= m < pool.len() ==> exists|i: int|
                        0 <= i < r@.len() && label_key((#[trigger] r@[i]).0@) == tile_char(
                            #[trigger] pool[m],
                        )
            }),
    {
        let ghost racks = self@.racks;
        let ghost pool = unseen_tiles(self@, player_index as int);
        let ghost all = other_racks(racks, player_index as int, racks.len());
        let mut entries: Vec<(Option<char>, usize)> = Vec::new();
        let mut j: usize = 0;
        while j < self.racks.len()
            invariant
                racks == self@.racks,
                pool == all + self@.bag,
                all == other_racks(racks, player_index as int, racks.len()),
                pool.len() < usize::MAX,
                j <= racks.len(),
                self.racks@.len() == racks.len(),
                tallies(entries@, other_racks(racks, player_index as int, j as nat)),
            decreases racks.len() - j,
        {
            let ghost before = other_racks(racks, player_index as int, j as nat);
            if j != player_index {
                proof {
                    assert(self.racks@[j as int]@ == racks[j as int]);
                    lemma_other_racks_grow(racks, player_index as int, (j + 1) as nat, racks.len());
                }
                let rack = &self.racks[j];
                let mut m: usize = 0;
                while m < rack.len()
                    invariant
                        rack@ == racks[j as int],
                        before.len() + rack@.len() <= all.len(),
                        pool.len() < usize::MAX,
                        pool == all + self@.bag,
                        m <= rack@.len(),
                        tallies(entries@, before + rack@.take(m as int)),
                    decreases rack@.len() - m,
                {
                    let ghost seen = before + rack@.take(m as int);
                    tally(&mut entries, rack[m], Ghost(seen));
                    proof {
                        assert(seen.push(rack@[m as int]) =~= before + rack@.take(m as int + 1));
                    }
                    m += 1;
                }
                proof {
                    assert(rack@.take(m as int) =~= rack@);
                }
            }
            j += 1;
        }
        let bag = self.bag.tiles();
        let mut m: usize = 0;
        proof {
            assert(all + bag@.take(0) =~= all);
        }
        while m < bag.len()
            invariant
                bag@ == self@.bag,
                pool == all + bag@,
                pool.len() < usize::MAX,
                m <= bag@.len(),
                tallies(entries@, all + bag@.take(m as int)),
            decreases bag@.len() - m,
        {
            let ghost seen = all + bag@.take(m as int);
            tally(&mut entries, bag[m], Ghost(seen));
            proof {
                assert(seen.push(bag@[m as int]) =~= all + bag@.take(m as int + 1));
            }
            m += 1;
        }
        proof {
            assert(all + bag@.take(m as int) =~= pool);
        }
        let mut r: Vec<(String, usize)> = Vec::new();
        let mut k: usize = 0;
        while k < entries.len()
            invariant
                tallies(entries@, pool),
                k <= entries@.len(),
                r@.len() == k,
                forall|i: int|
                    0 <= i < k ==> (#[trigger] r@[i]).1 == entries@[i].1 && label_key(r@[i].0@)
                        == entries@[i].0 && r@[i].0@ == key_label(entries@[i].0),
            decreases entries@.len() - k,
        {
            let (key, count) = entries[k];
            let label = Tile::Blank(key).to_string();
            proof {
                lemma_label_key(key);
            }
            r.push((label, count));
            k += 1;
        }
        proof {
            assert forall|m: int| 0 <= m < pool.len() implies exists|i: int|
                0 <= i < r@.len() && label_key((#[trigger] r@[i]).0@) == tile_char(
                    #[trigger] pool[m],
                ) by {
                let i = choose|i: int|
                    0 <= i < entries@.len() && (#[trigger] entries@[i]).0 == tile_char(pool[m]);
                assert(label_key(r@[i].0@) == entries@[i].0);
            }
        }
        r
    }
}

/// The view of a game made of saved parts, on the standard board type.
pub open spec fn parts_view(
    board: Seq<Square>,
    players: Seq<Player>,
    player_index: usize,
    bag: Seq<Tile>,
    racks: Seq<Rack>,
    scores: Seq<Vec<TurnScore>>,
    state: State,
    name: Seq<char>,
    pkid: Option<i64>,
) -> GameView {
    GameView {
        board,
        players: players.map_values(|p: Player| p.0@),
        player_index: player_index as int,
        bag,
        racks: racks.map_values(|r: Rack| r@),
        scores: scores.map_values(|h: Vec<TurnScore>| h@.map_values(|s: TurnScore| s@)),
        state,
        size: BOARD_SIZE as nat,
        board_type: seq!['s', 't', 'a', 'n', 'd', 'a', 'r', 'd'],
        name,
        pkid,
    }
}

impl Game {
    /// Rebuilds a saved game from its parts, if they make a valid game.
    pub fn restore(
        board: Vec<Square>,
        players: Vec<Player>,
        player_index: usize,
        bag: Vec<Tile>,
        racks: Vec<Rack>,
        scores: Vec<Vec<TurnScore>>,
        state: State,
        name: String,
        pkid: Option<i64>,
    ) -> (r: Option<Game>)
        ensures
            ({
                let v = parts_view(
                    board@,
                    players@,
                    player_index,
                    bag@,
                    racks@,
                    scores@,
                    state,
                    name@,
                    pkid,
                );
                &&& game_ok(v) ==> (r matches Some(g) && g@ == v)
                &&& !game_ok(v) ==> r is None
            }),
    {
        let ghost v = parts_view(
            board@,
            players@,
            player_index,
            bag@,
            racks@,
            scores@,
            state,
            name@,
            pkid,
        );
        if racks.len() != players.len() || scores.len() != players.len() {
            return None;
        }
        if state != State::Pre && player_index >= players.len() {
            return None;
        }
        let mut k: usize = 0;
        while k < racks.len()
            invariant
                v.racks == racks@.map_values(|r: Rack| r@),
                k <= racks@.len(),
                forall|i: int| 0 <= i < k ==> (#[trigger] v.racks[i]).len() <= RACK_SIZE,
            decreases racks@.len() - k,
        {
            if racks[k].len() > RACK_SIZE {
                proof {
                    assert(v.racks[k as int].len() > RACK_SIZE);
                }
                return None;
            }
            k += 1;
        }
        let mut i: usize = 0;
        while i < players.len()
            invariant
                v.players == players@.map_values(|p: Player| p.0@),
                i <= players@.len(),
                forall|a: int, b: int| 0 <= a < b < v.players.len() && a < i ==> v.players[a] != v.players[b],
            decreases players@.len() - i,
        {
            let mut j: usize = i + 1;
            while j < players.len()
                invariant
                    v.players == players@.map_values(|p: Player| p.0@),
                    i < j <= players@.len(),
                    forall|a: int, b: int| 0 <= a < b < v.players.len() && a < i ==> v.players[a] != v.players[b],
                    forall|b: int| i < b < j ==> v.players[i as int] != v.players[b],
                decreases players@.len() - j,
            {
                if players[i].0 == players[j].0 {
                    proof {
                        assert(v.players[i as int] == players@[i as int].0@);
                        assert(v.players[j as int] == players@[j as int].0@);
                        assert(v.players[i as int] == v.players[j as int]);
                    }
                    return None;
                }
                j += 1;
            }
            i += 1;
        }
        let board = match Board::from_squares(board) {
            Some(b) => b,
            None => {
                return None;
            },
        };
        let g = Game {
            board,
            players,
            player_index,
            bag: Bag::new(bag),
            racks,
            scores,
            state,
            size: BOARD_SIZE,
            board_type: String::from_str("standard"),
            pkid,
            name,
        };
        proof {
            reveal_strlit("standard");
            assert(g@.board_type =~= v.board_type);
            assert(g@ == v);
        }
        Some(g)
    }
}

/// On a board without tiles, no placement inside the board is refused.
pub proof fn lemma_free_board_placements(b: Seq<Square>, t: Seq<(usize, Tile)>)
    requires
        forall|i: int| 0 <= i < b.len() ==> !(#[trigger] b[i] is Tile),
        forall|k: int| 0 <= k < t.len() ==> (#[trigger] t[k]).0 < INDEX_OVERFLOW,
    ensures
        placement_fault(b, t) is None,
    decreases t.len(),
{
    if t.len() > 0 {
        assert forall|k: int| 0 <= k < t.len() - 1 implies (#[trigger] t.drop_last()[k]).0
            < INDEX_OVERFLOW by {
            assert(t.drop_last()[k] == t[k]);
        }
        lemma_free_board_placements(b, t.drop_last());
        assert(t.last() == t[t.len() - 1]);
    }
}

/// On a board without tiles, a turn of the right shape whose cells lie on
/// the board but miss the center cell is refused as not connected; `play`
/// then returns that error and leaves the game as it was.
pub proof fn lemma_unconnected_turn(g: GameView, t: Seq<(usize, Tile)>)
    requires
        forall|i: int| 0 <= i < g.board.len() ==> !(#[trigger] g.board[i] is Tile),
        shape_error(t) is None,
        forall|k: int|
            0 <= k < t.len() ==> (#[trigger] t[k]).0 < INDEX_OVERFLOW && t[k].0 != BOARD_CENTER,
    ensures
        turn_fault(g, t) == Some(Error::NotConnected),
{
    lemma_free_board_placements(g.board, t);
    assert(!connected(g.board, t)) by {
        assert forall|k: int, n: int|
            0 <= k < t.len() && adjacent((#[trigger] t[k]).0 as int, n) implies !#[trigger] occupied(
            g.board,
            n,
        ) by {}
    }
}

impl Game {
    /// Whether the game is under way and it is the turn of player `index`.
    pub fn is_turn_of(&self, index: usize) -> (r: bool)
        ensures
            r == (self@.state == State::Started && self@.player_index == index),
    {
        self.state == State::Started && self.player_index == index
    }
}

} // verus!
