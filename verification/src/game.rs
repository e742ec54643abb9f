//! The board and player model: a set is an ordered sequence of tiles tagged
//! as a group (same number, distinct colors) or a run (same color, strictly
//! consecutive numbers); a board is an ordered collection of sets; a player
//! holds a multiset of unplaced tiles; a game pairs the two.
use vstd::prelude::*;

use crate::tile::{tile_is_number, tile_number, tile_valid, Tile, TileValue};

verus! {

#[derive(Clone, Copy, PartialEq, Eq, Debug, Structural)]
pub enum SetType {
    Group,
    Run,
}

/// An ordered sequence of tiles standing on the board, tagged with the rule
/// it satisfies.
#[derive(Debug)]
pub struct TileSet {
    pub tiles: Vec<Tile>,
    pub set_type: SetType,
}

/// An ordered collection of sets. The order carries no game meaning but
/// fixes the indices that moves refer to.
#[derive(Debug)]
pub struct Board {
    pub sets: Vec<TileSet>,
}

/// The player's unplaced tiles, kept as a sequence with duplicates allowed.
#[derive(Debug)]
pub struct Player {
    pub tiles: Vec<Tile>,
}

/// One position of the game: the board plus the player's hand.
#[derive(Debug)]
pub struct Game {
    pub board: Board,
    pub player_tiles: Player,
}

/// True when some tile of the sequence has the given color.
pub open spec fn tiles_have_color(tiles: Seq<Tile>, c: crate::tile::Color) -> bool {
    exists|i: int| 0 <= i < tiles.len() && tiles[i].color == c
}

/// True when no two tiles of the sequence share a color.
pub open spec fn colors_all_distinct(tiles: Seq<Tile>) -> bool {
    forall|i: int, j: int|
        #![trigger tiles[i].color, tiles[j].color]
        0 <= i < j < tiles.len() ==> tiles[i].color != tiles[j].color
}

/// The group rule: 3 or 4 tiles, every tile numbered with the same number
/// between 1 and 13, and no two tiles of the same color.
pub open spec fn group_tiles_valid(tiles: Seq<Tile>) -> bool {
    &&& 3 <= tiles.len() <= 4
    &&& tile_is_number(tiles[0])
    &&& tile_valid(tiles[0])
    &&& forall|i: int| 0 <= i < tiles.len() ==> (#[trigger] tiles[i]).value == tiles[0].value
    &&& colors_all_distinct(tiles)
}

/// The run rule: at least 3 tiles, all of one color, carrying strictly
/// consecutive ascending numbers that stay within 1 to 13.
pub open spec fn run_tiles_valid(tiles: Seq<Tile>) -> bool {
    &&& tiles.len() >= 3
    &&& 1 <= tile_number(tiles[0])
    &&& tile_number(tiles[0]) + tiles.len() - 1 <= 13
    &&& forall|i: int|
        0 <= i < tiles.len() ==> tile_is_number(#[trigger] tiles[i]) && tiles[i].color
            == tiles[0].color && tile_number(tiles[i]) == tile_number(tiles[0]) + i
}

/// A set is valid when its tiles satisfy the rule its tag names.
pub open spec fn set_valid(s: TileSet) -> bool {
    match s.set_type {
        SetType::Group => group_tiles_valid(s.tiles@),
        SetType::Run => run_tiles_valid(s.tiles@),
    }
}

pub open spec fn board_valid(b: Board) -> bool {
    forall|i: int| 0 <= i < b.sets@.len() ==> set_valid(#[trigger] b.sets@[i])
}

pub open spec fn hand_valid(p: Player) -> bool {
    forall|i: int| 0 <= i < p.tiles@.len() ==> tile_valid(#[trigger] p.tiles@[i])
}

/// The well-formedness every search state keeps: each set on the board obeys
/// its rule and every held tile is one the game can contain.
pub open spec fn game_valid(g: Game) -> bool {
    board_valid(g.board) && hand_valid(g.player_tiles)
}

/// Total number of tiles standing in a sequence of sets.
pub open spec fn sets_tile_count(sets: Seq<TileSet>) -> int
    decreases sets.len(),
{
    if sets.len() == 0 {
        0
    } else {
        sets_tile_count(sets.drop_last()) + sets.last().tiles@.len()
    }
}

/// Total number of tiles in a game, on the board and in the hand together.
/// Every legal move conserves this count.
pub open spec fn game_tile_count(g: Game) -> int {
    sets_tile_count(g.board.sets@) + g.player_tiles.tiles@.len()
}

/// How many tiles the player still holds; the search minimises this.
pub open spec fn hand_len(g: Game) -> int {
    g.player_tiles.tiles@.len() as int
}

pub proof fn lemma_sets_count_take_step(sets: Seq<TileSet>, i: int)
    requires
        0 <= i < sets.len(),
    ensures
        sets_tile_count(sets.take(i + 1)) == sets_tile_count(sets.take(i))
            + sets[i].tiles@.len(),
{
    assert(sets.take(i + 1).drop_last() =~= sets.take(i));
    assert(sets.take(i + 1).last() == sets[i]);
}

pub proof fn lemma_sets_count_prefix_bound(sets: Seq<TileSet>, i: int)
    requires
        0 <= i <= sets.len(),
    ensures
        sets_tile_count(sets.take(i)) <= sets_tile_count(sets),
    decreases sets.len() - i,
{
    if i == sets.len() {
        assert(sets.take(i) =~= sets);
    } else {
        lemma_sets_count_take_step(sets, i);
        lemma_sets_count_prefix_bound(sets, i + 1);
    }
}

pub proof fn lemma_sets_count_push(sets: Seq<TileSet>, s: TileSet)
    ensures
        sets_tile_count(sets.push(s)) == sets_tile_count(sets) + s.tiles@.len(),
{
    assert(sets.push(s).drop_last() =~= sets);
}

pub proof fn lemma_sets_count_update(sets: Seq<TileSet>, i: int, s: TileSet)
    requires
        0 <= i < sets.len(),
    ensures
        sets_tile_count(sets.update(i, s)) == sets_tile_count(sets) - sets[i].tiles@.len()
            + s.tiles@.len(),
    decreases sets.len(),
{
    if i == sets.len() - 1 {
        assert(sets.update(i, s).drop_last() =~= sets.drop_last());
        assert(sets.update(i, s).last() == s);
    } else {
        assert(sets.update(i, s).drop_last() =~= sets.drop_last().update(i, s));
        assert(sets.update(i, s).last() == sets.last());
        lemma_sets_count_update(sets.drop_last(), i, s);
    }
}

pub proof fn lemma_sets_count_remove(sets: Seq<TileSet>, i: int)
    requires
        0 <= i < sets.len(),
    ensures
        sets_tile_count(sets.remove(i)) == sets_tile_count(sets) - sets[i].tiles@.len(),
    decreases sets.len(),
{
    if i == sets.len() - 1 {
        assert(sets.remove(i) =~= sets.drop_last());
    } else {
        assert(sets.remove(i).drop_last() =~= sets.drop_last().remove(i));
        assert(sets.remove(i).last() == sets.last());
        lemma_sets_count_remove(sets.drop_last(), i);
    }
}

pub proof fn lemma_sets_count_congruence(a: Seq<TileSet>, b: Seq<TileSet>)
    requires
        a.len() == b.len(),
        forall|i: int| 0 <= i < a.len() ==> set_eq(#[trigger] a[i], b[i]),
    ensures
        sets_tile_count(a) == sets_tile_count(b),
    decreases a.len(),
{
    if a.len() > 0 {
        assert(set_eq(a[a.len() - 1], b[a.len() - 1]));
        lemma_sets_count_congruence(a.drop_last(), b.drop_last());
    }
}

/// Structural equality of sets: same tag, same tiles in the same order.
pub open spec fn set_eq(a: TileSet, b: TileSet) -> bool {
    a.set_type == b.set_type && a.tiles@ == b.tiles@
}

/// Structural equality of boards: same sets in the same order.
pub open spec fn board_eq(a: Board, b: Board) -> bool {
    a.sets@.len() == b.sets@.len() && forall|i: int|
        0 <= i < a.sets@.len() ==> set_eq(#[trigger] a.sets@[i], b.sets@[i])
}

/// Full structural equality of game states; the visited set of the search
/// deduplicates by this relation.
pub open spec fn game_eq(a: Game, b: Game) -> bool {
    board_eq(a.board, b.board) && a.player_tiles.tiles@ == b.player_tiles.tiles@
}

/// Structurally equal states agree on validity, on the total tile count
/// and on the hand size.
pub proof fn lemma_game_eq_congruence(a: Game, b: Game)
    requires
        game_eq(a, b),
    ensures
        game_valid(a) == game_valid(b),
        game_tile_count(a) == game_tile_count(b),
        hand_len(a) == hand_len(b),
{
    if board_valid(a.board) {
        assert forall|i: int| 0 <= i < b.board.sets@.len() implies set_valid(
            #[trigger] b.board.sets@[i],
        ) by {
            assert(set_eq(a.board.sets@[i], b.board.sets@[i]));
            assert(set_valid(a.board.sets@[i]));
        }
    }
    if board_valid(b.board) {
        assert forall|i: int| 0 <= i < a.board.sets@.len() implies set_valid(
            #[trigger] a.board.sets@[i],
        ) by {
            assert(set_eq(a.board.sets@[i], b.board.sets@[i]));
            assert(set_valid(b.board.sets@[i]));
        }
    }
    lemma_sets_count_congruence(a.board.sets@, b.board.sets@);
}

pub fn tiles_equal(a: &Vec<Tile>, b: &Vec<Tile>) -> (r: bool)
    ensures
        r == (a@ == b@),
{
    if a.len() != b.len() {
        return false;
    }
    let mut i: usize = 0;
    while i < a.len()
        invariant
            i <= a@.len(),
            a@.len() == b@.len(),
            forall|j: int| 0 <= j < i ==> a@[j] == b@[j],
        decreases a@.len() - i,
    {
        if a[i] != b[i] {
            return false;
        }
        i += 1;
    }
    proof {
        assert(a@ =~= b@);
    }
    true
}

pub fn sets_equal(a: &TileSet, b: &TileSet) -> (r: bool)
    ensures
        r == set_eq(*a, *b),
{
    if a.set_type != b.set_type {
        return false;
    }
    tiles_equal(&a.tiles, &b.tiles)
}

pub fn boards_equal(a: &Board, b: &Board) -> (r: bool)
    ensures
        r == board_eq(*a, *b),
{
    if a.sets.len() != b.sets.len() {
        return false;
    }
    let mut i: usize = 0;
    while i < a.sets.len()
        invariant
            i <= a.sets@.len(),
            a.sets@.len() == b.sets@.len(),
            forall|j: int| 0 <= j < i ==> set_eq(#[trigger] a.sets@[j], b.sets@[j]),
        decreases a.sets@.len() - i,
    {
        if !sets_equal(&a.sets[i], &b.sets[i]) {
            return false;
        }
        i += 1;
    }
    true
}

/// Decides full structural equality of two game states.
pub fn games_equal(a: &Game, b: &Game) -> (r: bool)
    ensures
        r == game_eq(*a, *b),
{
    if !boards_equal(&a.board, &b.board) {
        return false;
    }
    tiles_equal(&a.player_tiles.tiles, &b.player_tiles.tiles)
}

pub fn clone_tiles(v: &Vec<Tile>) -> (r: Vec<Tile>)
    ensures
        r@ == v@,
{
    let mut r: Vec<Tile> = Vec::new();
    let mut i: usize = 0;
    while i < v.len()
        invariant
            i <= v@.len(),
            r@.len() == i,
            forall|j: int| 0 <= j < i ==> r@[j] == v@[j],
        decreases v@.len() - i,
    {
        r.push(v[i]);
        i += 1;
    }
    proof {
        assert(r@ =~= v@);
    }
    r
}

pub fn clone_set(s: &TileSet) -> (r: TileSet)
    ensures
        r.set_type == s.set_type,
        r.tiles@ == s.tiles@,
{
    TileSet { tiles: clone_tiles(&s.tiles), set_type: s.set_type }
}

pub fn clone_board(b: &Board) -> (r: Board)
    ensures
        board_eq(r, *b),
        r.sets@.len() == b.sets@.len(),
{
    let mut sets: Vec<TileSet> = Vec::new();
    let mut i: usize = 0;
    while i < b.sets.len()
        invariant
            i <= b.sets@.len(),
            sets@.len() == i,
            forall|j: int| 0 <= j < i ==> set_eq(#[trigger] sets@[j], b.sets@[j]),
        decreases b.sets@.len() - i,
    {
        sets.push(clone_set(&b.sets[i]));
        i += 1;
    }
    Board { sets }
}

/// Rebuilds an equal game state; transitions never mutate a parent in place.
pub fn clone_game(g: &Game) -> (r: Game)
    ensures
        game_eq(r, *g),
{
    Game {
        board: clone_board(&g.board),
        player_tiles: Player { tiles: clone_tiles(&g.player_tiles.tiles) },
    }
}

fn group_tiles_ok(tiles: &Vec<Tile>) -> (r: bool)
    ensures
        r == group_tiles_valid(tiles@),
{
    if tiles.len() < 3 || tiles.len() > 4 {
        return false;
    }
    let first = tiles[0];
    match first.value {
        TileValue::Joker => {
            return false;
        },
        TileValue::Number(n) => {
            if n < 1 || n > 13 {
                return false;
            }
        },
    }
    let mut i: usize = 1;
    while i < tiles.len()
        invariant
            1 <= i <= tiles@.len(),
            first == tiles@[0],
            forall|j: int| 0 <= j < i ==> (#[trigger] tiles@[j]).value == tiles@[0].value,
        decreases tiles@.len() - i,
    {
        if tiles[i].value != first.value {
            return false;
        }
        i += 1;
    }
    Game::all_different_colors(tiles)
}

fn run_tiles_ok(tiles: &Vec<Tile>) -> (r: bool)
    ensures
        r == run_tiles_valid(tiles@),
{
    if tiles.len() < 3 || tiles.len() > 13 {
        return false;
    }
    let first = tiles[0];
    let n0: u8 = match first.value {
        TileValue::Joker => {
            return false;
        },
        TileValue::Number(n) => n,
    };
    if n0 < 1 {
        return false;
    }
    if n0 as usize + tiles.len() - 1 > 13 {
        return false;
    }
    let mut i: usize = 1;
    while i < tiles.len()
        invariant
            1 <= i <= tiles@.len(),
            tiles@.len() <= 13,
            first == tiles@[0],
            first.value == TileValue::Number(n0),
            1 <= n0,
            n0 as int + tiles@.len() - 1 <= 13,
            forall|j: int|
                0 <= j < i ==> tile_is_number(#[trigger] tiles@[j]) && tiles@[j].color
                    == tiles@[0].color && tile_number(tiles@[j]) == tile_number(tiles@[0]) + j,
        decreases tiles@.len() - i,
    {
        if tiles[i].color != first.color {
            return false;
        }
        match tiles[i].value {
            TileValue::Joker => {
                return false;
            },
            TileValue::Number(n) => {
                if n != n0 + (i as u8) {
                    return false;
                }
            },
        }
        i += 1;
    }
    true
}

impl TileSet {
    /// Decides whether this set satisfies the rule its tag names.
    pub fn is_valid(&self) -> (r: bool)
        ensures
            r == set_valid(*self),
    {
        match self.set_type {
            SetType::Group => group_tiles_ok(&self.tiles),
            SetType::Run => run_tiles_ok(&self.tiles),
        }
    }
}

impl Board {
    /// Decides whether every set on the board is valid.
    pub fn is_valid(&self) -> (r: bool)
        ensures
            r == board_valid(*self),
    {
        let mut i: usize = 0;
        while i < self.sets.len()
            invariant
                i <= self.sets@.len(),
                forall|j: int| 0 <= j < i ==> set_valid(#[trigger] self.sets@[j]),
            decreases self.sets@.len() - i,
        {
            if !self.sets[i].is_valid() {
                return false;
            }
            i += 1;
        }
        true
    }
}

impl Game {
    /// Decides whether no two tiles of the list share a color.
    pub fn all_different_colors(tiles: &Vec<Tile>) -> (r: bool)
        ensures
            r == colors_all_distinct(tiles@),
    {
        let mut p: usize = 0;
        while p < tiles.len()
            invariant
                p <= tiles@.len(),
                forall|a: int, b: int|
                    #![trigger tiles@[a].color, tiles@[b].color]
                    0 <= a < b < tiles@.len() && a < p ==> tiles@[a].color != tiles@[b].color,
            decreases tiles@.len() - p,
        {
            let mut q: usize = p + 1;
            while q < tiles.len()
                invariant
                    p < q <= tiles@.len(),
                    p < tiles@.len(),
                    forall|b: int|
                        #![trigger tiles@[b].color]
                        p < b < q ==> tiles@[p as int].color != tiles@[b].color,
                decreases tiles@.len() - q,
            {
                if tiles[p].color == tiles[q].color {
                    return false;
                }
                q += 1;
            }
            p += 1;
        }
        true
    }

    /// Decides whether the state is well formed: a valid board and a hand of
    /// tiles the game can contain.
    pub fn is_valid(&self) -> (r: bool)
        ensures
            r == game_valid(*self),
    {
        if !self.board.is_valid() {
            return false;
        }
        let mut i: usize = 0;
        while i < self.player_tiles.tiles.len()
            invariant
                i <= self.player_tiles.tiles@.len(),
                forall|j: int|
                    0 <= j < i ==> tile_valid(#[trigger] self.player_tiles.tiles@[j]),
            decreases self.player_tiles.tiles@.len() - i,
        {
            let t = self.player_tiles.tiles[i];
            match t.value {
                TileValue::Joker => {},
                TileValue::Number(n) => {
                    if n < 1 || n > 13 {
                        return false;
                    }
                },
            }
            i += 1;
        }
        true
    }

    /// Counts every tile of the state, on the board and in the hand.
    pub fn count_tiles(&self) -> (n: usize)
        requires
            game_tile_count(*self) <= usize::MAX,
        ensures
            n as int == game_tile_count(*self),
    {
        let mut total: usize = 0;
        let mut i: usize = 0;
        while i < self.board.sets.len()
            invariant
                i <= self.board.sets@.len(),
                total as int == sets_tile_count(self.board.sets@.take(i as int)),
                game_tile_count(*self) <= usize::MAX,
            decreases self.board.sets@.len() - i,
        {
            proof {
                lemma_sets_count_take_step(self.board.sets@, i as int);
                lemma_sets_count_prefix_bound(self.board.sets@, i as int + 1);
            }
            total = total + self.board.sets[i].tiles.len();
            i += 1;
        }
        proof {
            assert(self.board.sets@.take(i as int) =~= self.board.sets@);
        }
        total + self.player_tiles.tiles.len()
    }

    /// How many tiles the player still holds.
    pub fn player_tiles_length(&self) -> (n: usize)
        ensures
            n as int == hand_len(*self),
    {
        self.player_tiles.tiles.len()
    }
}

} // verus!
