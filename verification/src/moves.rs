//! The move generator: from one valid game state it enumerates every legal
//! successor state, in four families — add a held tile to a set, take a
//! spare tile from a set, lay a new set from the hand, and split a long run.
//! Every successor keeps every set valid and conserves the total tile count.
use vstd::prelude::*;

use crate::tile::{
    tile_is_number, tile_number, tile_valid, Color, FromWhere, MoveType, Tile, TileMove,
    TileValue,
};
use crate::game::{
    board_valid, clone_board, clone_set, clone_tiles, game_tile_count, game_valid, hand_len,
    group_tiles_valid,
    hand_valid, lemma_sets_count_congruence, lemma_sets_count_push, lemma_sets_count_remove,
    lemma_sets_count_update, run_tiles_valid,
    set_eq, set_valid, sets_tile_count, tiles_have_color, Board, Game, Player, SetType,
    TileSet,
};

verus! {

/// True when the hand holds a tile equal to `t`.
pub open spec fn hand_has_tile(hand: Seq<Tile>, t: Tile) -> bool {
    exists|i: int| 0 <= i < hand.len() && hand[i] == t
}

/// Index of the first occurrence of `t`; meaningful only when `t` occurs.
pub open spec fn first_tile_index(s: Seq<Tile>, t: Tile) -> int
    decreases s.len(),
{
    if s.len() == 0 {
        0
    } else if s[0] == t {
        0
    } else {
        1 + first_tile_index(s.drop_first(), t)
    }
}

pub proof fn lemma_first_tile_index(s: Seq<Tile>, t: Tile)
    requires
        hand_has_tile(s, t),
    ensures
        0 <= first_tile_index(s, t) < s.len(),
        s[first_tile_index(s, t)] == t,
        forall|j: int| 0 <= j < first_tile_index(s, t) ==> s[j] != t,
    decreases s.len(),
{
    if s[0] == t {
    } else {
        let w = choose|i: int| 0 <= i < s.len() && s[i] == t;
        assert(s.drop_first()[w - 1] == t);
        lemma_first_tile_index(s.drop_first(), t);
        assert forall|j: int| 0 <= j < first_tile_index(s, t) implies s[j] != t by {
            if j > 0 {
                assert(s.drop_first()[j - 1] != t);
            }
        }
    }
}

/// The hand after giving up one copy of `t`; unchanged when none is held.
pub open spec fn remove_first_tile(hand: Seq<Tile>, t: Tile) -> Seq<Tile> {
    if hand_has_tile(hand, t) {
        hand.remove(first_tile_index(hand, t))
    } else {
        hand
    }
}

/// Finds the first occurrence of `t`, if any.
fn find_tile(tiles: &Vec<Tile>, t: Tile) -> (r: Option<usize>)
    ensures
        match r {
            Some(i) => hand_has_tile(tiles@, t) && i as int == first_tile_index(tiles@, t),
            None => !hand_has_tile(tiles@, t),
        },
{
    let mut i: usize = 0;
    while i < tiles.len()
        invariant
            i <= tiles@.len(),
            forall|j: int| 0 <= j < i ==> tiles@[j] != t,
        decreases tiles@.len() - i,
    {
        if tiles[i] == t {
            proof {
                lemma_first_tile_index(tiles@, t);
                let fi = first_tile_index(tiles@, t);
                if fi < i as int {
                    assert(tiles@[fi] != t);
                }
            }
            return Some(i);
        }
        i += 1;
    }
    None
}

fn tiles_contain_color(tiles: &Vec<Tile>, c: Color) -> (r: bool)
    ensures
        r == tiles_have_color(tiles@, c),
{
    let mut i: usize = 0;
    while i < tiles.len()
        invariant
            i <= tiles@.len(),
            forall|j: int| 0 <= j < i ==> tiles@[j].color != c,
        decreases tiles@.len() - i,
    {
        if tiles[i].color == c {
            return true;
        }
        i += 1;
    }
    false
}

/// The first color, in the fixed order red, blue, yellow, black, that no
/// tile of the sequence carries. For a valid 3-tile group this is the one
/// color the group lacks.
pub open spec fn missing_color(tiles: Seq<Tile>) -> Color {
    if !tiles_have_color(tiles, Color::Red) {
        Color::Red
    } else if !tiles_have_color(tiles, Color::Blue) {
        Color::Blue
    } else if !tiles_have_color(tiles, Color::Yellow) {
        Color::Yellow
    } else {
        Color::Black
    }
}

/// Candidate insertions into a group: a 3-tile group accepts one tile of its
/// number in its missing color; a 4-tile group accepts nothing.
pub open spec fn group_add_moves(s: TileSet, idx: usize) -> Seq<TileMove> {
    if s.tiles@.len() == 3 && tile_is_number(s.tiles@[0]) {
        seq![
            TileMove {
                tile: Tile { value: s.tiles@[0].value, color: missing_color(s.tiles@) },
                from_where: FromWhere::Start,
                set_index: idx,
                move_type: MoveType::FromPlayerToBoard,
            },
        ]
    } else {
        Seq::empty()
    }
}

/// Candidate prepend to a run: one tile below its first number, unless the
/// run already starts at 1.
pub open spec fn run_start_moves(s: TileSet, idx: usize) -> Seq<TileMove> {
    if s.tiles@.len() > 0 && tile_is_number(s.tiles@.first()) && tile_number(s.tiles@.first())
        > 1 {
        seq![
            TileMove {
                tile: Tile {
                    value: TileValue::Number((tile_number(s.tiles@.first()) - 1) as u8),
                    color: s.tiles@.first().color,
                },
                from_where: FromWhere::Start,
                set_index: idx,
                move_type: MoveType::FromPlayerToBoard,
            },
        ]
    } else {
        Seq::empty()
    }
}

/// Candidate append to a run: one tile above its last number, unless the run
/// already ends at 13.
pub open spec fn run_end_moves(s: TileSet, idx: usize) -> Seq<TileMove> {
    if s.tiles@.len() > 0 && tile_is_number(s.tiles@.last()) && tile_number(s.tiles@.last())
        < 13 {
        seq![
            TileMove {
                tile: Tile {
                    value: TileValue::Number((tile_number(s.tiles@.last()) + 1) as u8),
                    color: s.tiles@.last().color,
                },
                from_where: FromWhere::End,
                set_index: idx,
                move_type: MoveType::FromPlayerToBoard,
            },
        ]
    } else {
        Seq::empty()
    }
}

pub open spec fn set_add_moves(s: TileSet, idx: usize) -> Seq<TileMove> {
    match s.set_type {
        SetType::Group => group_add_moves(s, idx),
        SetType::Run => run_start_moves(s, idx) + run_end_moves(s, idx),
    }
}

/// Every candidate player-to-board move the board offers, set by set.
pub open spec fn board_add_moves(sets: Seq<TileSet>) -> Seq<TileMove>
    decreases sets.len(),
{
    if sets.len() == 0 {
        Seq::empty()
    } else {
        board_add_moves(sets.drop_last()) + set_add_moves(
            sets.last(),
            (sets.len() - 1) as usize,
        )
    }
}

/// What a sound player-to-board candidate looks like against a valid board:
/// it names a real set and a tile that legally extends that set.
pub open spec fn add_move_ok(b: Board, m: TileMove) -> bool {
    &&& m.move_type == MoveType::FromPlayerToBoard
    &&& (m.set_index as int) < b.sets@.len()
    &&& tile_is_number(m.tile)
    &&& tile_valid(m.tile)
    &&& ({
        let s = b.sets@[m.set_index as int];
        match s.set_type {
            SetType::Group => s.tiles@.len() == 3 && m.from_where == FromWhere::Start
                && m.tile.value == s.tiles@[0].value && !tiles_have_color(
                s.tiles@,
                m.tile.color,
            ),
            SetType::Run => s.tiles@.len() > 0 && ((m.from_where == FromWhere::Start
                && m.tile.color == s.tiles@.first().color && tile_number(m.tile) == tile_number(
                s.tiles@.first(),
            ) - 1) || (m.from_where == FromWhere::End && m.tile.color == s.tiles@.last().color
                && tile_number(m.tile) == tile_number(s.tiles@.last()) + 1)),
        }
    })
}

/// A valid 3-tile group carries three distinct colors, so its missing color
/// is truly absent.
proof fn lemma_group_missing_color(tiles: Seq<Tile>)
    requires
        tiles.len() == 3,
        forall|i: int, j: int|
            #![trigger tiles[i].color, tiles[j].color]
            0 <= i < j < tiles.len() ==> tiles[i].color != tiles[j].color,
    ensures
        !tiles_have_color(tiles, missing_color(tiles)),
{
    if tiles_have_color(tiles, Color::Red) && tiles_have_color(tiles, Color::Blue)
        && tiles_have_color(tiles, Color::Yellow) {
        let ir = choose|i: int| 0 <= i < tiles.len() && tiles[i].color == Color::Red;
        let ib = choose|i: int| 0 <= i < tiles.len() && tiles[i].color == Color::Blue;
        let iy = choose|i: int| 0 <= i < tiles.len() && tiles[i].color == Color::Yellow;
        if tiles_have_color(tiles, Color::Black) {
            let ik = choose|i: int| 0 <= i < tiles.len() && tiles[i].color == Color::Black;
            assert(ir != ib && ir != iy && ib != iy);
            assert(ik != ir && ik != ib && ik != iy);
            assert(false);
        }
    }
}

proof fn lemma_board_add_moves_take_step(sets: Seq<TileSet>, i: usize)
    requires
        (i as int) < sets.len(),
    ensures
        board_add_moves(sets.take(i as int + 1)) == board_add_moves(sets.take(i as int))
            + set_add_moves(sets[i as int], i),
{
    assert(sets.take(i as int + 1).drop_last() =~= sets.take(i as int));
    assert(sets.take(i as int + 1).last() == sets[i as int]);
}

impl Board {
    /// Candidate insertions into one group, as `group_add_moves` describes.
    pub fn handle_group(&self, set: &TileSet, set_index: usize) -> (moves: Vec<TileMove>)
        ensures
            moves@ == group_add_moves(*set, set_index),
    {
        let mut moves: Vec<TileMove> = Vec::new();
        if set.tiles.len() != 3 {
            proof {
                assert(moves@ =~= group_add_moves(*set, set_index));
            }
            return moves;
        }
        let v = set.tiles[0].value;
        match v {
            TileValue::Joker => {
                proof {
                    assert(moves@ =~= group_add_moves(*set, set_index));
                }
                return moves;
            },
            TileValue::Number(_) => {},
        }
        let color = if !tiles_contain_color(&set.tiles, Color::Red) {
            Color::Red
        } else if !tiles_contain_color(&set.tiles, Color::Blue) {
            Color::Blue
        } else if !tiles_contain_color(&set.tiles, Color::Yellow) {
            Color::Yellow
        } else {
            Color::Black
        };
        moves.push(
            TileMove {
                tile: Tile { value: v, color },
                from_where: FromWhere::Start,
                set_index,
                move_type: MoveType::FromPlayerToBoard,
            },
        );
        proof {
            assert(moves@ =~= group_add_moves(*set, set_index));
        }
        moves
    }

    /// Candidate prepend to one run, as `run_start_moves` describes.
    pub fn handle_run_start(&self, set: &TileSet, set_index: usize) -> (moves: Vec<TileMove>)
        ensures
            moves@ == run_start_moves(*set, set_index),
    {
        let mut moves: Vec<TileMove> = Vec::new();
        if set.tiles.len() > 0 {
            let first = set.tiles[0];
            if let TileValue::Number(n) = first.value {
                if n > 1 {
                    moves.push(
                        TileMove {
                            tile: Tile { value: TileValue::Number(n - 1), color: first.color },
                            from_where: FromWhere::Start,
                            set_index,
                            move_type: MoveType::FromPlayerToBoard,
                        },
                    );
                }
            }
        }
        proof {
            assert(moves@ =~= run_start_moves(*set, set_index));
        }
        moves
    }

    /// Candidate append to one run, as `run_end_moves` describes.
    pub fn handle_run_end(&self, set: &TileSet, set_index: usize) -> (moves: Vec<TileMove>)
        ensures
            moves@ == run_end_moves(*set, set_index),
    {
        let mut moves: Vec<TileMove> = Vec::new();
        if set.tiles.len() > 0 {
            let last = set.tiles[set.tiles.len() - 1];
            if let TileValue::Number(n) = last.value {
                if n < 13 {
                    moves.push(
                        TileMove {
                            tile: Tile { value: TileValue::Number(n + 1), color: last.color },
                            from_where: FromWhere::End,
                            set_index,
                            move_type: MoveType::FromPlayerToBoard,
                        },
                    );
                }
            }
        }
        proof {
            assert(moves@ =~= run_end_moves(*set, set_index));
        }
        moves
    }

    /// Every candidate player-to-board move the board offers. On a valid
    /// board every candidate is a sound extension of the set it names.
    pub fn tiles_to_add(&self) -> (moves: Vec<TileMove>)
        ensures
            moves@ == board_add_moves(self.sets@),
            board_valid(*self) ==> forall|j: int|
                0 <= j < moves@.len() ==> add_move_ok(*self, #[trigger] moves@[j]),
    {
        let mut moves: Vec<TileMove> = Vec::new();
        let mut i: usize = 0;
        while i < self.sets.len()
            invariant
                i <= self.sets@.len(),
                moves@ == board_add_moves(self.sets@.take(i as int)),
                board_valid(*self) ==> forall|j: int|
                    0 <= j < moves@.len() ==> add_move_ok(*self, #[trigger] moves@[j]),
            decreases self.sets@.len() - i,
        {
            let set = &self.sets[i];
            let mut fresh: Vec<TileMove> = match set.set_type {
                SetType::Group => self.handle_group(set, i),
                SetType::Run => {
                    let mut a = self.handle_run_start(set, i);
                    let mut b = self.handle_run_end(set, i);
                    a.append(&mut b);
                    proof {
                        assert(a@ =~= run_start_moves(self.sets@[i as int], i) + run_end_moves(
                            self.sets@[i as int],
                            i,
                        ));
                    }
                    a
                },
            };
            proof {
                assert(fresh@ == set_add_moves(self.sets@[i as int], i));
                lemma_board_add_moves_take_step(self.sets@, i);
                if board_valid(*self) {
                    let s = self.sets@[i as int];
                    assert(set_valid(s));
                    match s.set_type {
                        SetType::Group => {
                            if s.tiles@.len() == 3 {
                                lemma_group_missing_color(s.tiles@);
                            }
                        },
                        SetType::Run => {},
                    }
                    assert forall|j: int| 0 <= j < fresh@.len() implies add_move_ok(
                        *self,
                        #[trigger] fresh@[j],
                    ) by {
                        assert(set_valid(s));
                    }
                }
            }
            moves.append(&mut fresh);
            i += 1;
        }
        proof {
            assert(self.sets@.take(i as int) =~= self.sets@);
        }
        moves
    }
}

/// The candidates whose tile the hand actually holds, in enumeration order.
pub open spec fn eligible_moves(moves: Seq<TileMove>, hand: Seq<Tile>) -> Seq<TileMove>
    decreases moves.len(),
{
    if moves.len() == 0 {
        Seq::empty()
    } else {
        let rest = eligible_moves(moves.drop_last(), hand);
        if hand_has_tile(hand, moves.last().tile) {
            rest.push(moves.last())
        } else {
            rest
        }
    }
}

proof fn lemma_eligible_take_step(moves: Seq<TileMove>, hand: Seq<Tile>, i: int)
    requires
        0 <= i < moves.len(),
    ensures
        eligible_moves(moves.take(i + 1), hand) == if hand_has_tile(hand, moves[i].tile) {
            eligible_moves(moves.take(i), hand).push(moves[i])
        } else {
            eligible_moves(moves.take(i), hand)
        },
{
    assert(moves.take(i + 1).drop_last() =~= moves.take(i));
    assert(moves.take(i + 1).last() == moves[i]);
}

/// How applying one player-to-board move rewrites the state: the named set
/// gains the tile at the named end, every other set is unchanged, and the
/// hand gives up its first matching tile.
pub open spec fn game_matches_add(g: Game, m: TileMove, r: Game) -> bool {
    &&& r.board.sets@.len() == g.board.sets@.len()
    &&& (m.set_index as int) < g.board.sets@.len()
    &&& forall|k: int|
        0 <= k < g.board.sets@.len() && k != m.set_index as int ==> set_eq(
            #[trigger] r.board.sets@[k],
            g.board.sets@[k],
        )
    &&& r.board.sets@[m.set_index as int].set_type == g.board.sets@[m.set_index
        as int].set_type
    &&& r.board.sets@[m.set_index as int].tiles@ == (match m.from_where {
        FromWhere::Start => g.board.sets@[m.set_index as int].tiles@.insert(0, m.tile),
        FromWhere::End => g.board.sets@[m.set_index as int].tiles@.push(m.tile),
    })
    &&& r.player_tiles.tiles@ == remove_first_tile(g.player_tiles.tiles@, m.tile)
}

/// The whole add-tile family: one successor per candidate whose tile the
/// hand holds, in enumeration order.
pub open spec fn matches_adding_games(g: Game, out: Seq<Game>) -> bool {
    let ms = eligible_moves(board_add_moves(g.board.sets@), g.player_tiles.tiles@);
    out.len() == ms.len() && forall|j: int|
        0 <= j < ms.len() ==> game_matches_add(g, ms[j], #[trigger] out[j])
}

impl Game {
    /// Successor states that place one held tile onto an existing set.
    pub fn get_adding_tiles_games(&self) -> (games: Vec<Game>)
        requires
            game_valid(*self),
        ensures
            matches_adding_games(*self, games@),
            forall|j: int|
                0 <= j < games@.len() ==> game_valid(#[trigger] games@[j]) && game_tile_count(
                    games@[j],
                ) == game_tile_count(*self),
    {
        let tiles_to_add = self.board.tiles_to_add();
        let ghost hand = self.player_tiles.tiles@;
        let mut games: Vec<Game> = Vec::new();
        let mut mi: usize = 0;
        while mi < tiles_to_add.len()
            invariant
                mi <= tiles_to_add@.len(),
                game_valid(*self),
                tiles_to_add@ == board_add_moves(self.board.sets@),
                hand == self.player_tiles.tiles@,
                forall|j: int|
                    0 <= j < tiles_to_add@.len() ==> add_move_ok(
                        self.board,
                        #[trigger] tiles_to_add@[j],
                    ),
                games@.len() == eligible_moves(tiles_to_add@.take(mi as int), hand).len(),
                forall|j: int|
                    0 <= j < games@.len() ==> game_matches_add(
                        *self,
                        eligible_moves(tiles_to_add@.take(mi as int), hand)[j],
                        #[trigger] games@[j],
                    ),
                forall|j: int|
                    0 <= j < games@.len() ==> game_valid(#[trigger] games@[j])
                        && game_tile_count(games@[j]) == game_tile_count(*self),
            decreases tiles_to_add@.len() - mi,
        {
            let m = tiles_to_add[mi];
            proof {
                lemma_eligible_take_step(tiles_to_add@, hand, mi as int);
            }
            match find_tile(&self.player_tiles.tiles, m.tile) {
                None => {},
                Some(pos) => {
                    proof {
                        lemma_first_tile_index(hand, m.tile);
                    }
                    let mut new_hand = clone_tiles(&self.player_tiles.tiles);
                    new_hand.remove(pos);
                    let old_set = &self.board.sets[m.set_index];
                    let mut new_tiles = clone_tiles(&old_set.tiles);
                    match m.from_where {
                        FromWhere::Start => new_tiles.insert(0, m.tile),
                        FromWhere::End => new_tiles.push(m.tile),
                    }
                    let new_set = TileSet { tiles: new_tiles, set_type: old_set.set_type };
                    let mut new_board = clone_board(&self.board);
                    new_board.sets.set(m.set_index, new_set);
                    let new_game = Game {
                        board: new_board,
                        player_tiles: Player { tiles: new_hand },
                    };
                    proof {
                        let idx = m.set_index as int;
                        let s = self.board.sets@[idx];
                        lemma_first_tile_index(hand, m.tile);
                        assert(game_matches_add(*self, m, new_game));
                        // the rewritten set stays valid
                        let nt = new_game.board.sets@[idx].tiles@;
                        match s.set_type {
                            SetType::Group => {
                                assert(nt[0] == m.tile);
                                assert(forall|i: int|
                                    1 <= i < nt.len() ==> nt[i] == s.tiles@[i - 1]);
                                assert(group_tiles_valid(nt));
                            },
                            SetType::Run => {
                                match m.from_where {
                                    FromWhere::Start => {
                                        assert(nt[0] == m.tile);
                                        assert(forall|i: int|
                                            1 <= i < nt.len() ==> nt[i] == s.tiles@[i - 1]);
                                        assert(run_tiles_valid(nt));
                                    },
                                    FromWhere::End => {
                                        assert(forall|i: int|
                                            0 <= i < s.tiles@.len() ==> nt[i] == s.tiles@[i]);
                                        assert(nt.last() == m.tile);
                                        assert(run_tiles_valid(nt));
                                    },
                                }
                            },
                        }
                        assert forall|k: int|
                            0 <= k < new_game.board.sets@.len() implies set_valid(
                            #[trigger] new_game.board.sets@[k],
                        ) by {
                            if k != idx {
                                assert(set_eq(new_game.board.sets@[k], self.board.sets@[k]));
                                assert(set_valid(self.board.sets@[k]));
                            }
                        }
                        assert(board_valid(new_game.board));
                        assert(hand_valid(new_game.player_tiles));
                        // the move conserves the tile count
                        assert(game_tile_count(new_game) == game_tile_count(*self)) by {
                            let before = self.board.sets@;
                            let mid = new_game.board.sets@.update(idx, before[idx]);
                            assert(mid.len() == before.len());
                            assert(forall|k: int|
                                0 <= k < mid.len() ==> set_eq(#[trigger] mid[k], before[k]));
                            lemma_sets_count_congruence(mid, before);
                            lemma_sets_count_update(mid, idx, new_game.board.sets@[idx]);
                            assert(mid.update(idx, new_game.board.sets@[idx])
                                =~= new_game.board.sets@);
                        }
                    }
                    games.push(new_game);
                },
            }
            mi += 1;
        }
        proof {
            assert(tiles_to_add@.take(mi as int) =~= tiles_to_add@);
        }
        games
    }
}

/// Candidate removals from one set: a long run frees its first and last
/// tile, a long group frees every tile; a set at its minimum size of 3
/// frees nothing.
pub open spec fn set_take_moves(s: TileSet, idx: usize) -> Seq<TileMove> {
    match s.set_type {
        SetType::Run => if s.tiles@.len() > 3 {
            seq![
                TileMove {
                    tile: s.tiles@.first(),
                    from_where: FromWhere::Start,
                    set_index: idx,
                    move_type: MoveType::FromBoardToPlayer,
                },
                TileMove {
                    tile: s.tiles@.last(),
                    from_where: FromWhere::End,
                    set_index: idx,
                    move_type: MoveType::FromBoardToPlayer,
                },
            ]
        } else {
            Seq::empty()
        },
        SetType::Group => if s.tiles@.len() > 3 {
            Seq::new(
                s.tiles@.len(),
                |k: int|
                    TileMove {
                        tile: s.tiles@[k],
                        from_where: FromWhere::Start,
                        set_index: idx,
                        move_type: MoveType::FromBoardToPlayer,
                    },
            )
        } else {
            Seq::empty()
        },
    }
}

/// Every candidate board-to-player move the board offers, set by set.
pub open spec fn board_take_moves(sets: Seq<TileSet>) -> Seq<TileMove>
    decreases sets.len(),
{
    if sets.len() == 0 {
        Seq::empty()
    } else {
        board_take_moves(sets.drop_last()) + set_take_moves(
            sets.last(),
            (sets.len() - 1) as usize,
        )
    }
}

/// What a sound board-to-player candidate looks like: it names a set longer
/// than the minimum that really contains the tile, and for a run only an
/// end tile is named.
pub open spec fn take_move_ok(b: Board, m: TileMove) -> bool {
    &&& m.move_type == MoveType::FromBoardToPlayer
    &&& (m.set_index as int) < b.sets@.len()
    &&& ({
        let s = b.sets@[m.set_index as int];
        s.tiles@.len() > 3 && hand_has_tile(s.tiles@, m.tile) && match s.set_type {
            SetType::Run => (m.from_where == FromWhere::Start && m.tile == s.tiles@.first())
                || (m.from_where == FromWhere::End && m.tile == s.tiles@.last()),
            SetType::Group => true,
        }
    })
}

proof fn lemma_board_take_moves_take_step(sets: Seq<TileSet>, i: usize)
    requires
        (i as int) < sets.len(),
    ensures
        board_take_moves(sets.take(i as int + 1)) == board_take_moves(sets.take(i as int))
            + set_take_moves(sets[i as int], i),
{
    assert(sets.take(i as int + 1).drop_last() =~= sets.take(i as int));
    assert(sets.take(i as int + 1).last() == sets[i as int]);
}

impl Board {
    /// Every candidate board-to-player move the board offers. Each names a
    /// set above the minimum size and a tile that set really contains.
    pub fn tiles_to_take(&self) -> (moves: Vec<TileMove>)
        ensures
            moves@ == board_take_moves(self.sets@),
            forall|j: int|
                0 <= j < moves@.len() ==> take_move_ok(*self, #[trigger] moves@[j]),
    {
        let mut moves: Vec<TileMove> = Vec::new();
        let mut i: usize = 0;
        while i < self.sets.len()
            invariant
                i <= self.sets@.len(),
                moves@ == board_take_moves(self.sets@.take(i as int)),
                forall|j: int|
                    0 <= j < moves@.len() ==> take_move_ok(*self, #[trigger] moves@[j]),
            decreases self.sets@.len() - i,
        {
            let set = &self.sets[i];
            let mut fresh: Vec<TileMove> = Vec::new();
            match set.set_type {
                SetType::Run => {
                    if set.tiles.len() > 3 {
                        fresh.push(
                            TileMove {
                                tile: set.tiles[0],
                                from_where: FromWhere::Start,
                                set_index: i,
                                move_type: MoveType::FromBoardToPlayer,
                            },
                        );
                        fresh.push(
                            TileMove {
                                tile: set.tiles[set.tiles.len() - 1],
                                from_where: FromWhere::End,
                                set_index: i,
                                move_type: MoveType::FromBoardToPlayer,
                            },
                        );
                    }
                },
                SetType::Group => {
                    if set.tiles.len() > 3 {
                        let mut k: usize = 0;
                        while k < set.tiles.len()
                            invariant
                                k <= set.tiles@.len(),
                                fresh@.len() == k,
                                forall|kk: int|
                                    0 <= kk < k ==> #[trigger] fresh@[kk] == (TileMove {
                                        tile: set.tiles@[kk],
                                        from_where: FromWhere::Start,
                                        set_index: i,
                                        move_type: MoveType::FromBoardToPlayer,
                                    }),
                            decreases set.tiles@.len() - k,
                        {
                            fresh.push(
                                TileMove {
                                    tile: set.tiles[k],
                                    from_where: FromWhere::Start,
                                    set_index: i,
                                    move_type: MoveType::FromBoardToPlayer,
                                },
                            );
                            k += 1;
                        }
                    }
                },
            }
            proof {
                assert(fresh@ =~= set_take_moves(self.sets@[i as int], i));
                lemma_board_take_moves_take_step(self.sets@, i);
                assert forall|j: int| 0 <= j < fresh@.len() implies take_move_ok(
                    *self,
                    #[trigger] fresh@[j],
                ) by {
                    let s = self.sets@[i as int];
                    match s.set_type {
                        SetType::Run => {
                            assert(s.tiles@[0] == s.tiles@.first());
                        },
                        SetType::Group => {
                            assert(fresh@[j].tile == s.tiles@[j]);
                        },
                    }
                }
            }
            moves.append(&mut fresh);
            i += 1;
        }
        proof {
            assert(self.sets@.take(i as int) =~= self.sets@);
        }
        moves
    }
}

/// How applying one board-to-player move rewrites the state: the named set
/// loses its first tile equal to the named one, every other set is
/// unchanged, and the hand gains that tile at its end.
pub open spec fn game_matches_take(g: Game, m: TileMove, r: Game) -> bool {
    &&& r.board.sets@.len() == g.board.sets@.len()
    &&& (m.set_index as int) < g.board.sets@.len()
    &&& hand_has_tile(g.board.sets@[m.set_index as int].tiles@, m.tile)
    &&& forall|k: int|
        0 <= k < g.board.sets@.len() && k != m.set_index as int ==> set_eq(
            #[trigger] r.board.sets@[k],
            g.board.sets@[k],
        )
    &&& r.board.sets@[m.set_index as int].set_type == g.board.sets@[m.set_index
        as int].set_type
    &&& r.board.sets@[m.set_index as int].tiles@ == g.board.sets@[m.set_index
        as int].tiles@.remove(
        first_tile_index(g.board.sets@[m.set_index as int].tiles@, m.tile),
    )
    &&& r.player_tiles.tiles@ == g.player_tiles.tiles@.push(m.tile)
}

/// The whole take-tile family: one successor per candidate removal, in
/// enumeration order.
pub open spec fn matches_taking_games(g: Game, out: Seq<Game>) -> bool {
    let ms = board_take_moves(g.board.sets@);
    out.len() == ms.len() && forall|j: int|
        0 <= j < ms.len() ==> game_matches_take(g, ms[j], #[trigger] out[j])
}

impl Game {
    /// Successor states that move one spare tile from a set into the hand.
    pub fn get_taking_tiles_games(&self) -> (games: Vec<Game>)
        requires
            game_valid(*self),
        ensures
            matches_taking_games(*self, games@),
            forall|j: int|
                0 <= j < games@.len() ==> game_valid(#[trigger] games@[j]) && game_tile_count(
                    games@[j],
                ) == game_tile_count(*self),
    {
        let tiles_to_move = self.board.tiles_to_take();
        let mut games: Vec<Game> = Vec::new();
        let mut mi: usize = 0;
        while mi < tiles_to_move.len()
            invariant
                mi <= tiles_to_move@.len(),
                game_valid(*self),
                tiles_to_move@ == board_take_moves(self.board.sets@),
                forall|j: int|
                    0 <= j < tiles_to_move@.len() ==> take_move_ok(
                        self.board,
                        #[trigger] tiles_to_move@[j],
                    ),
                games@.len() == mi,
                forall|j: int|
                    0 <= j < mi ==> game_matches_take(
                        *self,
                        tiles_to_move@[j],
                        #[trigger] games@[j],
                    ),
                forall|j: int|
                    0 <= j < games@.len() ==> game_valid(#[trigger] games@[j])
                        && game_tile_count(games@[j]) == game_tile_count(*self),
            decreases tiles_to_move@.len() - mi,
        {
            let m = tiles_to_move[mi];
            let mut new_hand = clone_tiles(&self.player_tiles.tiles);
            new_hand.push(m.tile);
            let old_set = &self.board.sets[m.set_index];
            let ghost old_tiles = old_set.tiles@;
            proof {
                lemma_first_tile_index(old_tiles, m.tile);
            }
            let mut st = clone_tiles(&old_set.tiles);
            let pos: usize = match find_tile(&st, m.tile) {
                Some(p) => p,
                None => {
                    proof {
                        assert(false);
                    }
                    0
                },
            };
            st.remove(pos);
            let new_set = TileSet { tiles: st, set_type: old_set.set_type };
            let mut new_board = clone_board(&self.board);
            new_board.sets.set(m.set_index, new_set);
            let new_game = Game { board: new_board, player_tiles: Player { tiles: new_hand } };
            proof {
                let idx = m.set_index as int;
                let s = self.board.sets@[idx];
                let p = first_tile_index(old_tiles, m.tile);
                let nt = new_game.board.sets@[idx].tiles@;
                assert(nt == old_tiles.remove(p));
                assert(game_matches_take(*self, m, new_game));
                assert(set_valid(s));
                // the tile that leaves the board is one the game can contain
                assert(tile_valid(m.tile)) by {
                    let w = choose|i: int| 0 <= i < old_tiles.len() && old_tiles[i] == m.tile;
                    assert(tile_valid(old_tiles[w]));
                }
                assert(hand_valid(new_game.player_tiles));
                // the shrunken set stays valid
                assert(forall|i: int| 0 <= i < p ==> nt[i] == old_tiles[i]);
                assert(forall|i: int| p <= i < nt.len() ==> nt[i] == old_tiles[i + 1]);
                match s.set_type {
                    SetType::Group => {
                        assert forall|i: int, j: int|
                            #![trigger nt[i].color, nt[j].color]
                            0 <= i < j < nt.len() implies nt[i].color != nt[j].color by {
                            let oi: int = if i < p {
                                i
                            } else {
                                i + 1
                            };
                            let oj: int = if j < p {
                                j
                            } else {
                                j + 1
                            };
                            assert(old_tiles[oi].color != old_tiles[oj].color);
                        }
                        assert forall|i: int| 0 <= i < nt.len() implies (#[trigger] nt[i]).value
                            == nt[0].value by {
                            assert(old_tiles[if i < p {
                                i
                            } else {
                                i + 1
                            }].value == old_tiles[0].value);
                            assert(old_tiles[if 0 < p {
                                0
                            } else {
                                1
                            }].value == old_tiles[0].value);
                        }
                        assert(group_tiles_valid(nt));
                    },
                    SetType::Run => {
                        if m.from_where == FromWhere::Start {
                            assert(p == 0);
                            assert(run_tiles_valid(nt));
                        } else {
                            assert forall|j: int| 0 <= j < old_tiles.len() - 1 implies old_tiles[j]
                                != m.tile by {
                                assert(tile_number(old_tiles[j]) == tile_number(old_tiles[0])
                                    + j);
                            }
                            assert(p == old_tiles.len() - 1);
                            assert(run_tiles_valid(nt));
                        }
                    },
                }
                assert forall|k: int| 0 <= k < new_game.board.sets@.len() implies set_valid(
                    #[trigger] new_game.board.sets@[k],
                ) by {
                    if k != idx {
                        assert(set_eq(new_game.board.sets@[k], self.board.sets@[k]));
                        assert(set_valid(self.board.sets@[k]));
                    }
                }
                // the move conserves the tile count
                assert(game_tile_count(new_game) == game_tile_count(*self)) by {
                    let before = self.board.sets@;
                    let mid = new_game.board.sets@.update(idx, before[idx]);
                    assert(mid.len() == before.len());
                    assert(forall|k: int|
                        0 <= k < mid.len() ==> set_eq(#[trigger] mid[k], before[k]));
                    lemma_sets_count_congruence(mid, before);
                    lemma_sets_count_update(mid, idx, new_game.board.sets@[idx]);
                    assert(mid.update(idx, new_game.board.sets@[idx]) =~= new_game.board.sets@);
                }
            }
            games.push(new_game);
            mi += 1;
        }
        games
    }
}

/// The held tiles carrying the number `n`, in hand order.
pub open spec fn tiles_with_number(hand: Seq<Tile>, n: int) -> Seq<Tile>
    decreases hand.len(),
{
    if hand.len() == 0 {
        Seq::empty()
    } else {
        let rest = tiles_with_number(hand.drop_last(), n);
        if tile_is_number(hand.last()) && tile_number(hand.last()) == n {
            rest.push(hand.last())
        } else {
            rest
        }
    }
}

proof fn lemma_tiles_with_number_take_step(hand: Seq<Tile>, n: int, i: int)
    requires
        0 <= i < hand.len(),
    ensures
        tiles_with_number(hand.take(i + 1), n) == if tile_is_number(hand[i]) && tile_number(
            hand[i],
        ) == n {
            tiles_with_number(hand.take(i), n).push(hand[i])
        } else {
            tiles_with_number(hand.take(i), n)
        },
{
    assert(hand.take(i + 1).drop_last() =~= hand.take(i));
    assert(hand.take(i + 1).last() == hand[i]);
}

proof fn lemma_tiles_with_number_elems(hand: Seq<Tile>, n: int)
    ensures
        forall|i: int|
            0 <= i < tiles_with_number(hand, n).len() ==> {
                let t = #[trigger] tiles_with_number(hand, n)[i];
                hand_has_tile(hand, t) && tile_is_number(t) && tile_number(t) == n
            },
    decreases hand.len(),
{
    if hand.len() > 0 {
        lemma_tiles_with_number_elems(hand.drop_last(), n);
        assert forall|j: int| 0 <= j < hand.drop_last().len() implies hand_has_tile(
            hand,
            hand.drop_last()[j],
        ) by {
            assert(hand[j] == hand.drop_last()[j]);
        }
        assert(hand_has_tile(hand, hand.last())) by {
            assert(hand[hand.len() - 1] == hand.last());
        }
        assert forall|i: int| 0 <= i < tiles_with_number(hand.drop_last(), n).len() implies
            hand_has_tile(hand, tiles_with_number(hand.drop_last(), n)[i]) by {
            let t = tiles_with_number(hand.drop_last(), n)[i];
            assert(hand_has_tile(hand.drop_last(), t));
            let w = choose|k: int| 0 <= k < hand.drop_last().len() && hand.drop_last()[k] == t;
            assert(hand[w] == t);
        }
    }
}

/// Keeps the first tile of each color, in order of first appearance.
pub open spec fn dedup_colors(s: Seq<Tile>) -> Seq<Tile>
    decreases s.len(),
{
    if s.len() == 0 {
        Seq::empty()
    } else {
        let rest = dedup_colors(s.drop_last());
        if tiles_have_color(rest, s.last().color) {
            rest
        } else {
            rest.push(s.last())
        }
    }
}

proof fn lemma_dedup_colors_take_step(s: Seq<Tile>, i: int)
    requires
        0 <= i < s.len(),
    ensures
        dedup_colors(s.take(i + 1)) == if tiles_have_color(
            dedup_colors(s.take(i)),
            s[i].color,
        ) {
            dedup_colors(s.take(i))
        } else {
            dedup_colors(s.take(i)).push(s[i])
        },
{
    assert(s.take(i + 1).drop_last() =~= s.take(i));
    assert(s.take(i + 1).last() == s[i]);
}

proof fn lemma_dedup_colors_facts(s: Seq<Tile>)
    ensures
        forall|i: int|
            0 <= i < dedup_colors(s).len() ==> hand_has_tile(s, #[trigger] dedup_colors(s)[i]),
        forall|i: int, j: int|
            #![trigger dedup_colors(s)[i].color, dedup_colors(s)[j].color]
            0 <= i < j < dedup_colors(s).len() ==> dedup_colors(s)[i].color != dedup_colors(
                s,
            )[j].color,
    decreases s.len(),
{
    if s.len() > 0 {
        lemma_dedup_colors_facts(s.drop_last());
        let rest = dedup_colors(s.drop_last());
        assert forall|i: int| 0 <= i < rest.len() implies hand_has_tile(s, rest[i]) by {
            assert(hand_has_tile(s.drop_last(), rest[i]));
            let w = choose|k: int|
                0 <= k < s.drop_last().len() && s.drop_last()[k] == rest[i];
            assert(s[w] == rest[i]);
        }
        assert(hand_has_tile(s, s.last())) by {
            assert(s[s.len() - 1] == s.last());
        }
        if !tiles_have_color(rest, s.last().color) {
            let d = rest.push(s.last());
            assert forall|i: int, j: int|
                #![trigger d[i].color, d[j].color]
                0 <= i < j < d.len() implies d[i].color != d[j].color by {
                if j < d.len() - 1 {
                    assert(d[i] == rest[i] && d[j] == rest[j]);
                } else {
                    assert(d[j] == s.last());
                    assert(d[i] == rest[i]);
                    assert(!tiles_have_color(rest, s.last().color));
                }
            }
        }
    }
}

/// No more than four tiles can carry pairwise distinct colors.
proof fn lemma_distinct_colors_bound(tiles: Seq<Tile>)
    requires
        forall|i: int, j: int|
            #![trigger tiles[i].color, tiles[j].color]
            0 <= i < j < tiles.len() ==> tiles[i].color != tiles[j].color,
    ensures
        tiles.len() <= 4,
{
    if tiles.len() >= 5 {
        let c0 = tiles[0].color;
        let c1 = tiles[1].color;
        let c2 = tiles[2].color;
        let c3 = tiles[3].color;
        let c4 = tiles[4].color;
        assert(c0 != c1 && c0 != c2 && c0 != c3 && c0 != c4 && c1 != c2 && c1 != c3 && c1 != c4
            && c2 != c3 && c2 != c4 && c3 != c4);
        assert(false);
    }
}

/// The group the hand can lay for number `n`: its tiles of that number,
/// one per color.
pub open spec fn group_candidate(hand: Seq<Tile>, n: int) -> Seq<Tile> {
    dedup_colors(tiles_with_number(hand, n))
}

/// The group candidates of at least three tiles, for numbers 1 up to `n`.
pub open spec fn group_candidates_upto(hand: Seq<Tile>, n: int) -> Seq<Seq<Tile>>
    decreases n,
{
    if n <= 0 {
        Seq::empty()
    } else {
        let rest = group_candidates_upto(hand, n - 1);
        if group_candidate(hand, n).len() >= 3 {
            rest.push(group_candidate(hand, n))
        } else {
            rest
        }
    }
}

/// True when the hand holds a tile of color `c` numbered `n`.
pub open spec fn hand_has_number(hand: Seq<Tile>, c: Color, n: int) -> bool {
    exists|i: int|
        0 <= i < hand.len() && hand[i].color == c && tile_is_number(#[trigger] hand[i])
            && tile_number(hand[i]) == n
}

/// Which numbers of color `c` the hand holds, as flags indexed 0 to 13;
/// index 0 stands for no number and is never set.
pub open spec fn color_presence(hand: Seq<Tile>, c: Color) -> Seq<bool> {
    Seq::new(14, |n: int| 1 <= n && hand_has_number(hand, c, n))
}

/// Length of the unbroken streak of present numbers starting at `i`.
pub open spec fn streak_len_at(p: Seq<bool>, i: int) -> int
    decreases p.len() - i,
{
    if i < 0 || i >= p.len() || !p[i] {
        0
    } else {
        1 + streak_len_at(p, i + 1)
    }
}

/// The start of the longest streak at or after `i`, earliest on a tie;
/// `p.len()` when every streak is empty.
pub open spec fn best_start(p: Seq<bool>, i: int) -> int
    decreases p.len() - i,
{
    if i >= p.len() {
        i
    } else {
        let rest = best_start(p, i + 1);
        if streak_len_at(p, i) >= streak_len_at(p, rest) {
            i
        } else {
            rest
        }
    }
}

proof fn lemma_streak_len_bounds(p: Seq<bool>, i: int)
    requires
        0 <= i <= p.len(),
    ensures
        0 <= streak_len_at(p, i) <= p.len() - i,
        forall|k: int| 0 <= k < streak_len_at(p, i) ==> #[trigger] p[i + k],
    decreases p.len() - i,
{
    if i < p.len() && p[i] {
        lemma_streak_len_bounds(p, i + 1);
        assert forall|k: int| 0 <= k < streak_len_at(p, i) implies #[trigger] p[i + k] by {
            if k > 0 {
                assert(p[(i + 1) + (k - 1)]);
            }
        }
    }
}

proof fn lemma_best_start_range(p: Seq<bool>, i: int)
    requires
        0 <= i <= p.len(),
    ensures
        i <= best_start(p, i) <= p.len(),
    decreases p.len() - i,
{
    if i < p.len() {
        lemma_best_start_range(p, i + 1);
    }
}

/// The run the hand can lay in color `c`: one tile for each number of the
/// longest streak of held consecutive numbers, earliest streak on a tie.
pub open spec fn run_candidate(hand: Seq<Tile>, c: Color) -> Seq<Tile> {
    let p = color_presence(hand, c);
    let s = best_start(p, 1);
    Seq::new(
        streak_len_at(p, s) as nat,
        |k: int| Tile { value: TileValue::Number((s + k) as u8), color: c },
    )
}

/// The fixed order in which colors are examined.
pub open spec fn colors_order() -> Seq<Color> {
    seq![Color::Red, Color::Blue, Color::Yellow, Color::Black]
}

/// The run candidates of at least three tiles, for the first `k` colors.
pub open spec fn run_candidates_upto(hand: Seq<Tile>, k: int) -> Seq<Seq<Tile>>
    decreases k,
{
    if k <= 0 {
        Seq::empty()
    } else {
        let rest = run_candidates_upto(hand, k - 1);
        if run_candidate(hand, colors_order()[k - 1]).len() >= 3 {
            rest.push(run_candidate(hand, colors_order()[k - 1]))
        } else {
            rest
        }
    }
}

/// What a lay-a-new-set candidate guarantees: at least three pairwise
/// distinct tiles, all held, forming a valid set of the tagged kind.
pub open spec fn candidate_ok(hand: Seq<Tile>, tiles: Seq<Tile>, st: SetType) -> bool {
    &&& tiles.len() >= 3
    &&& forall|i: int| 0 <= i < tiles.len() ==> hand_has_tile(hand, #[trigger] tiles[i])
    &&& forall|i: int, j: int| 0 <= i < j < tiles.len() ==> tiles[i] != tiles[j]
    &&& match st {
        SetType::Group => group_tiles_valid(tiles),
        SetType::Run => run_tiles_valid(tiles),
    }
}

impl Game {
    /// The held tiles carrying the number `n`, in hand order.
    pub fn group_tiles_by_number(&self, n: u8) -> (matching: Vec<Tile>)
        ensures
            matching@ == tiles_with_number(self.player_tiles.tiles@, n as int),
    {
        let ghost hand = self.player_tiles.tiles@;
        let mut matching: Vec<Tile> = Vec::new();
        let mut i: usize = 0;
        while i < self.player_tiles.tiles.len()
            invariant
                i <= hand.len(),
                hand == self.player_tiles.tiles@,
                matching@ == tiles_with_number(hand.take(i as int), n as int),
            decreases hand.len() - i,
        {
            proof {
                lemma_tiles_with_number_take_step(hand, n as int, i as int);
            }
            let t = self.player_tiles.tiles[i];
            if t.value == TileValue::Number(n) {
                matching.push(t);
            }
            i += 1;
        }
        proof {
            assert(hand.take(i as int) =~= hand);
        }
        matching
    }

    /// The longest streak of held consecutive numbers in one color, as a
    /// freshly built ascending sequence of tiles; on a tie the earliest
    /// streak wins.
    pub fn find_consecutive_tiles(&self, color: Color) -> (run_tiles: Vec<Tile>)
        ensures
            run_tiles@ == run_candidate(self.player_tiles.tiles@, color),
            forall|q: int|
                0 <= q < run_tiles@.len() ==> hand_has_tile(
                    self.player_tiles.tiles@,
                    #[trigger] run_tiles@[q],
                ),
            run_tiles@.len() >= 3 ==> run_tiles_valid(run_tiles@),
    {
        let ghost hand = self.player_tiles.tiles@;
        let ghost p = color_presence(hand, color);
        let mut present: Vec<bool> = Vec::new();
        let mut z: usize = 0;
        while z < 14
            invariant
                z <= 14,
                present@.len() == z,
                forall|q: int| 0 <= q < z ==> !(#[trigger] present@[q]),
            decreases 14 - z,
        {
            present.push(false);
            z += 1;
        }
        let mut hi: usize = 0;
        while hi < self.player_tiles.tiles.len()
            invariant
                hi <= hand.len(),
                hand == self.player_tiles.tiles@,
                present@.len() == 14,
                forall|q: int|
                    0 <= q < 14 ==> #[trigger] present@[q] == (1 <= q && hand_has_number(
                        hand.take(hi as int),
                        color,
                        q,
                    )),
            decreases hand.len() - hi,
        {
            let t = self.player_tiles.tiles[hi];
            let ghost prev = present@;
            if t.color == color {
                match t.value {
                    TileValue::Number(num) => {
                        if 1 <= num && num <= 13 {
                            present.set(num as usize, true);
                        }
                    },
                    TileValue::Joker => {},
                }
            }
            proof {
                assert forall|q: int| 0 <= q < 14 implies #[trigger] present@[q] == (1 <= q
                    && hand_has_number(hand.take(hi as int + 1), color, q)) by {
                    if 1 <= q && hand_has_number(hand.take(hi as int + 1), color, q) {
                        let w = choose|y: int|
                            0 <= y < hand.take(hi as int + 1).len() && hand.take(
                                hi as int + 1,
                            )[y].color == color && tile_is_number(
                                #[trigger] hand.take(hi as int + 1)[y],
                            ) && tile_number(hand.take(hi as int + 1)[y]) == q;
                        if w < hi as int {
                            assert(hand.take(hi as int)[w] == hand[w]);
                            assert(hand_has_number(hand.take(hi as int), color, q));
                            assert(prev[q]);
                            assert(present@[q]);
                        } else {
                            assert(hand.take(hi as int + 1)[w] == hand[hi as int]);
                            assert(present@[q]);
                        }
                    }
                    if present@[q] {
                        if prev[q] {
                            assert(1 <= q && hand_has_number(hand.take(hi as int), color, q));
                            let w = choose|y: int|
                                0 <= y < hand.take(hi as int).len() && hand.take(
                                    hi as int,
                                )[y].color == color && tile_is_number(
                                    #[trigger] hand.take(hi as int)[y],
                                ) && tile_number(hand.take(hi as int)[y]) == q;
                            assert(hand.take(hi as int + 1)[w] == hand[w]);
                            assert(hand_has_number(hand.take(hi as int + 1), color, q));
                        } else {
                            assert(hand.take(hi as int + 1)[hi as int] == hand[hi as int]);
                            assert(hand_has_number(hand.take(hi as int + 1), color, q));
                        }
                    }
                }
            }
            hi += 1;
        }
        proof {
            assert(hand.take(hi as int) =~= hand);
            assert(present@ =~= p);
        }
        let mut i: usize = 13;
        let mut cur: usize = 0;
        let mut bs: usize = 14;
        let mut bl: usize = 0;
        proof {
            lemma_best_start_range(p, 14);
        }
        while i >= 1
            invariant
                i <= 13,
                present@ == p,
                present@.len() == 14,
                cur as int == streak_len_at(p, i as int + 1),
                bs as int == best_start(p, i as int + 1),
                bl as int == streak_len_at(p, bs as int),
                cur <= 13,
                bl <= 13,
                bs <= 14,
            decreases i,
        {
            proof {
                lemma_streak_len_bounds(p, i as int);
            }
            if present[i] {
                cur = cur + 1;
            } else {
                cur = 0;
            }
            if cur >= bl {
                bs = i;
                bl = cur;
            }
            i -= 1;
        }
        proof {
            lemma_streak_len_bounds(p, bs as int);
            lemma_best_start_range(p, 1);
        }
        let mut run_tiles: Vec<Tile> = Vec::new();
        let mut k: usize = 0;
        while k < bl
            invariant
                k <= bl,
                bl <= 13,
                bl > 0 ==> 1 <= bs <= 13 && bs + bl <= 14,
                run_tiles@.len() == k,
                forall|q: int|
                    0 <= q < k ==> #[trigger] run_tiles@[q] == (Tile {
                        value: TileValue::Number((bs + q) as u8),
                        color,
                    }),
            decreases bl - k,
        {
            run_tiles.push(Tile { value: TileValue::Number((bs + k) as u8), color });
            k += 1;
        }
        proof {
            assert(run_tiles@ =~= run_candidate(hand, color));
            lemma_streak_len_bounds(p, bs as int);
            assert forall|q: int| 0 <= q < run_tiles@.len() implies hand_has_tile(
                hand,
                #[trigger] run_tiles@[q],
            ) by {
                assert(p[bs as int + q]);
                assert(hand_has_number(hand, color, bs as int + q));
                let w = choose|y: int|
                    0 <= y < hand.len() && hand[y].color == color && tile_is_number(
                        #[trigger] hand[y],
                    ) && tile_number(hand[y]) == bs as int + q;
                assert(hand[w] == run_tiles@[q]);
            }
            if run_tiles@.len() >= 3 {
                assert(run_tiles_valid(run_tiles@));
            }
        }
        run_tiles
    }

    /// The new sets the hand can lay on its own: for each number, a group of
    /// its held colors; for each color, the longest streak of held
    /// consecutive numbers. Only candidates of at least three tiles count.
    pub fn find_possible_new_sets(&self) -> (sets: Vec<TileSet>)
        ensures
            sets@.len() == group_candidates_upto(self.player_tiles.tiles@, 13).len()
                + run_candidates_upto(self.player_tiles.tiles@, 4).len(),
            forall|j: int|
                0 <= j < group_candidates_upto(self.player_tiles.tiles@, 13).len() ==> (
                #[trigger] sets@[j]).set_type == SetType::Group && sets@[j].tiles@
                    == group_candidates_upto(self.player_tiles.tiles@, 13)[j],
            forall|j: int|
                group_candidates_upto(self.player_tiles.tiles@, 13).len() <= j < sets@.len()
                    ==> (#[trigger] sets@[j]).set_type == SetType::Run && sets@[j].tiles@
                    == run_candidates_upto(self.player_tiles.tiles@, 4)[j
                    - group_candidates_upto(self.player_tiles.tiles@, 13).len()],
            forall|j: int|
                0 <= j < sets@.len() ==> candidate_ok(
                    self.player_tiles.tiles@,
                    (#[trigger] sets@[j]).tiles@,
                    sets@[j].set_type,
                ),
    {
        let ghost hand = self.player_tiles.tiles@;
        let mut sets: Vec<TileSet> = Vec::new();
        let mut n: u8 = 1;
        while n <= 13
            invariant
                1 <= n <= 14,
                hand == self.player_tiles.tiles@,
                sets@.len() == group_candidates_upto(hand, n as int - 1).len(),
                forall|j: int|
                    0 <= j < sets@.len() ==> (#[trigger] sets@[j]).set_type == SetType::Group
                        && sets@[j].tiles@ == group_candidates_upto(hand, n as int - 1)[j],
                forall|j: int|
                    0 <= j < sets@.len() ==> candidate_ok(
                        hand,
                        (#[trigger] sets@[j]).tiles@,
                        sets@[j].set_type,
                    ),
            decreases 14 - n,
        {
            let matching = self.group_tiles_by_number(n);
            let mut deduped: Vec<Tile> = Vec::new();
            let mut k: usize = 0;
            while k < matching.len()
                invariant
                    k <= matching@.len(),
                    deduped@ == dedup_colors(matching@.take(k as int)),
                decreases matching@.len() - k,
            {
                proof {
                    lemma_dedup_colors_take_step(matching@, k as int);
                }
                let t = matching[k];
                if !tiles_contain_color(&deduped, t.color) {
                    deduped.push(t);
                }
                k += 1;
            }
            proof {
                assert(matching@.take(k as int) =~= matching@);
            }
            if deduped.len() >= 3 {
                proof {
                    lemma_tiles_with_number_elems(hand, n as int);
                    lemma_dedup_colors_facts(matching@);
                    lemma_distinct_colors_bound(deduped@);
                    assert forall|ii: int| 0 <= ii < deduped@.len() implies hand_has_tile(
                        hand,
                        #[trigger] deduped@[ii],
                    ) && tile_is_number(deduped@[ii]) && tile_number(deduped@[ii])
                        == n as int by {
                        assert(hand_has_tile(matching@, deduped@[ii]));
                        let w = choose|q: int|
                            0 <= q < matching@.len() && matching@[q] == deduped@[ii];
                        assert(matching@[w] == deduped@[ii]);
                    }
                    assert(group_tiles_valid(deduped@));
                    assert forall|ii: int, jj: int| 0 <= ii < jj < deduped@.len() implies
                        deduped@[ii] != deduped@[jj] by {
                        assert(deduped@[ii].color != deduped@[jj].color);
                    }
                    assert(candidate_ok(hand, deduped@, SetType::Group));
                }
                sets.push(TileSet { tiles: deduped, set_type: SetType::Group });
            }
            n += 1;
        }
        let ghost glen = group_candidates_upto(hand, 13).len() as int;
        let mut ci: usize = 0;
        while ci < 4
            invariant
                ci <= 4,
                hand == self.player_tiles.tiles@,
                glen == group_candidates_upto(hand, 13).len(),
                sets@.len() == glen + run_candidates_upto(hand, ci as int).len(),
                forall|j: int|
                    0 <= j < glen ==> (#[trigger] sets@[j]).set_type == SetType::Group
                        && sets@[j].tiles@ == group_candidates_upto(hand, 13)[j],
                forall|j: int|
                    glen <= j < sets@.len() ==> (#[trigger] sets@[j]).set_type == SetType::Run
                        && sets@[j].tiles@ == run_candidates_upto(hand, ci as int)[j - glen],
                forall|j: int|
                    0 <= j < sets@.len() ==> candidate_ok(
                        hand,
                        (#[trigger] sets@[j]).tiles@,
                        sets@[j].set_type,
                    ),
            decreases 4 - ci,
        {
            let c = if ci == 0 {
                Color::Red
            } else if ci == 1 {
                Color::Blue
            } else if ci == 2 {
                Color::Yellow
            } else {
                Color::Black
            };
            proof {
                assert(c == colors_order()[ci as int]);
            }
            let run_tiles = self.find_consecutive_tiles(c);
            if run_tiles.len() >= 3 {
                proof {
                    assert(run_tiles_valid(run_tiles@));
                    assert forall|ii: int, jj: int| 0 <= ii < jj < run_tiles@.len() implies
                        run_tiles@[ii] != run_tiles@[jj] by {
                        assert(tile_number(run_tiles@[ii]) == tile_number(run_tiles@[0]) + ii);
                        assert(tile_number(run_tiles@[jj]) == tile_number(run_tiles@[0]) + jj);
                    }
                    assert(candidate_ok(hand, run_tiles@, SetType::Run));
                }
                sets.push(TileSet { tiles: run_tiles, set_type: SetType::Run });
            }
            ci += 1;
        }
        sets
    }
}

/// The hand after giving up one copy of each listed tile, in list order.
pub open spec fn remove_tiles(hand: Seq<Tile>, tiles: Seq<Tile>) -> Seq<Tile>
    decreases tiles.len(),
{
    if tiles.len() == 0 {
        hand
    } else {
        remove_tiles(remove_first_tile(hand, tiles[0]), tiles.drop_first())
    }
}

/// Giving up one copy of `t` keeps every other tile value present.
proof fn lemma_remove_first_preserves(h: Seq<Tile>, t: Tile, t2: Tile)
    requires
        hand_has_tile(h, t2),
        t2 != t,
    ensures
        hand_has_tile(remove_first_tile(h, t), t2),
{
    if hand_has_tile(h, t) {
        lemma_first_tile_index(h, t);
        let fi = first_tile_index(h, t);
        let w = choose|i: int| 0 <= i < h.len() && h[i] == t2;
        if w < fi {
            assert(h.remove(fi)[w] == h[w]);
        } else {
            assert(h.remove(fi)[w - 1] == h[w]);
        }
    }
}

/// How laying a new set rewrites the state: every old set is unchanged, the
/// candidate is appended, and the hand gives up one copy of each of its
/// tiles.
pub open spec fn game_matches_create(g: Game, tiles: Seq<Tile>, st: SetType, r: Game) -> bool {
    &&& r.board.sets@.len() == g.board.sets@.len() + 1
    &&& forall|k: int|
        0 <= k < g.board.sets@.len() ==> set_eq(#[trigger] r.board.sets@[k], g.board.sets@[k])
    &&& r.board.sets@.last().set_type == st
    &&& r.board.sets@.last().tiles@ == tiles
    &&& r.player_tiles.tiles@ == remove_tiles(g.player_tiles.tiles@, tiles)
}

/// The whole lay-a-new-set family: one successor per group candidate, in
/// number order, then one per run candidate, in color order.
pub open spec fn matches_create_games(g: Game, out: Seq<Game>) -> bool {
    let gc = group_candidates_upto(g.player_tiles.tiles@, 13);
    let rc = run_candidates_upto(g.player_tiles.tiles@, 4);
    &&& out.len() == gc.len() + rc.len()
    &&& forall|j: int|
        0 <= j < gc.len() ==> game_matches_create(g, gc[j], SetType::Group, #[trigger] out[j])
    &&& forall|j: int|
        gc.len() <= j < out.len() ==> game_matches_create(
            g,
            rc[j - gc.len()],
            SetType::Run,
            #[trigger] out[j],
        )
}

impl Game {
    /// Successor states that lay one new set out of the hand.
    pub fn create_new_sets_games(&self) -> (games: Vec<Game>)
        requires
            game_valid(*self),
        ensures
            matches_create_games(*self, games@),
            forall|j: int|
                0 <= j < games@.len() ==> game_valid(#[trigger] games@[j]) && game_tile_count(
                    games@[j],
                ) == game_tile_count(*self),
    {
        let ghost hand0 = self.player_tiles.tiles@;
        let possible = self.find_possible_new_sets();
        let mut games: Vec<Game> = Vec::new();
        let mut si: usize = 0;
        while si < possible.len()
            invariant
                si <= possible@.len(),
                game_valid(*self),
                hand0 == self.player_tiles.tiles@,
                possible@.len() == group_candidates_upto(hand0, 13).len()
                    + run_candidates_upto(hand0, 4).len(),
                forall|j: int|
                    0 <= j < group_candidates_upto(hand0, 13).len() ==> (
                    #[trigger] possible@[j]).set_type == SetType::Group && possible@[j].tiles@
                        == group_candidates_upto(hand0, 13)[j],
                forall|j: int|
                    group_candidates_upto(hand0, 13).len() <= j < possible@.len() ==> (
                    #[trigger] possible@[j]).set_type == SetType::Run && possible@[j].tiles@
                        == run_candidates_upto(hand0, 4)[j - group_candidates_upto(
                        hand0,
                        13,
                    ).len()],
                forall|j: int|
                    0 <= j < possible@.len() ==> candidate_ok(
                        hand0,
                        (#[trigger] possible@[j]).tiles@,
                        possible@[j].set_type,
                    ),
                games@.len() == si,
                forall|j: int|
                    0 <= j < si ==> game_matches_create(
                        *self,
                        possible@[j].tiles@,
                        possible@[j].set_type,
                        #[trigger] games@[j],
                    ),
                forall|j: int|
                    0 <= j < games@.len() ==> game_valid(#[trigger] games@[j])
                        && game_tile_count(games@[j]) == game_tile_count(*self),
            decreases possible@.len() - si,
        {
            let set = &possible[si];
            let ghost cand = set.tiles@;
            let ghost st = set.set_type;
            let mut new_board = clone_board(&self.board);
            new_board.sets.push(clone_set(set));
            let mut new_hand = clone_tiles(&self.player_tiles.tiles);
            proof {
                assert(cand.skip(0) =~= cand);
            }
            let mut k: usize = 0;
            while k < set.tiles.len()
                invariant
                    k <= cand.len(),
                    cand == set.tiles@,
                    candidate_ok(hand0, cand, st),
                    remove_tiles(hand0, cand) == remove_tiles(new_hand@, cand.skip(k as int)),
                    new_hand@.len() == hand0.len() - k,
                    forall|q: int| k <= q < cand.len() ==> hand_has_tile(new_hand@, cand[q]),
                    forall|x: int| 0 <= x < new_hand@.len() ==> tile_valid(#[trigger] new_hand@[x]),
                decreases cand.len() - k,
            {
                let t = set.tiles[k];
                let ghost before = new_hand@;
                proof {
                    assert(hand_has_tile(before, t));
                    lemma_first_tile_index(before, t);
                }
                match find_tile(&new_hand, t) {
                    Some(pos) => {
                        new_hand.remove(pos);
                    },
                    None => {
                        proof {
                            assert(false);
                        }
                    },
                }
                proof {
                    assert(new_hand@ == remove_first_tile(before, t));
                    assert(cand.skip(k as int).drop_first() =~= cand.skip(k as int + 1));
                    assert(cand.skip(k as int)[0] == cand[k as int]);
                    assert(remove_tiles(new_hand@, cand.skip(k as int + 1)) == remove_tiles(
                        before,
                        cand.skip(k as int),
                    ));
                    assert forall|q: int| k as int + 1 <= q < cand.len() implies hand_has_tile(
                        new_hand@,
                        cand[q],
                    ) by {
                        assert(cand[q] != cand[k as int]);
                        lemma_remove_first_preserves(before, t, cand[q]);
                    }
                    let p = first_tile_index(before, t);
                    assert forall|x: int| 0 <= x < new_hand@.len() implies tile_valid(
                        #[trigger] new_hand@[x],
                    ) by {
                        if x < p {
                            assert(new_hand@[x] == before[x]);
                        } else {
                            assert(new_hand@[x] == before[x + 1]);
                        }
                    }
                }
                k += 1;
            }
            let new_game = Game { board: new_board, player_tiles: Player { tiles: new_hand } };
            proof {
                assert(cand.skip(cand.len() as int) =~= Seq::<Tile>::empty());
                assert(new_game.player_tiles.tiles@ == remove_tiles(hand0, cand));
                assert(game_matches_create(*self, cand, st, new_game));
                // every set of the successor is valid
                assert forall|kk: int| 0 <= kk < new_game.board.sets@.len() implies set_valid(
                    #[trigger] new_game.board.sets@[kk],
                ) by {
                    if kk < self.board.sets@.len() {
                        assert(set_eq(new_game.board.sets@[kk], self.board.sets@[kk]));
                        assert(set_valid(self.board.sets@[kk]));
                    } else {
                        assert(new_game.board.sets@[kk] == new_game.board.sets@.last());
                        assert(candidate_ok(hand0, cand, st));
                    }
                }
                assert(game_valid(new_game));
                // laying a set conserves the tile count
                assert(game_tile_count(new_game) == game_tile_count(*self)) by {
                    let before = self.board.sets@;
                    let cloned = new_game.board.sets@.drop_last();
                    assert(cloned.len() == before.len());
                    assert(forall|q: int|
                        0 <= q < cloned.len() ==> set_eq(#[trigger] cloned[q], before[q]));
                    lemma_sets_count_congruence(cloned, before);
                    assert(cloned.push(new_game.board.sets@.last()) =~= new_game.board.sets@);
                    lemma_sets_count_push(cloned, new_game.board.sets@.last());
                }
            }
            games.push(new_game);
            si += 1;
        }
        proof {
            assert(matches_create_games(*self, games@));
        }
        games
    }
}

/// The split points that leave both halves of a run at least 3 long:
/// 3 up to length minus 3.
pub open spec fn split_points(len: int) -> Seq<int> {
    if len >= 6 {
        Seq::new((len - 5) as nat, |j: int| j + 3)
    } else {
        Seq::empty()
    }
}

/// Every (set index, split point) pair the board offers, set by set; only
/// runs of length at least 6 can be split.
pub open spec fn board_split_pairs(sets: Seq<TileSet>) -> Seq<(int, int)>
    decreases sets.len(),
{
    if sets.len() == 0 {
        Seq::empty()
    } else {
        board_split_pairs(sets.drop_last()) + (if sets.last().set_type == SetType::Run {
            split_points(sets.last().tiles@.len() as int).map_values(
                |k: int| ((sets.len() - 1) as int, k),
            )
        } else {
            Seq::empty()
        })
    }
}

proof fn lemma_board_split_pairs_take_step(sets: Seq<TileSet>, i: usize)
    requires
        (i as int) < sets.len(),
    ensures
        board_split_pairs(sets.take(i as int + 1)) == board_split_pairs(sets.take(i as int))
            + (if sets[i as int].set_type == SetType::Run {
            split_points(sets[i as int].tiles@.len() as int).map_values(
                |k: int| (i as int, k),
            )
        } else {
            Seq::<(int, int)>::empty()
        }),
{
    assert(sets.take(i as int + 1).drop_last() =~= sets.take(i as int));
    assert(sets.take(i as int + 1).last() == sets[i as int]);
}

/// How splitting the run at `idx` at point `k` rewrites the board: the run
/// leaves its place, the sets after it move up by one, and its two halves
/// are appended in order.
pub open spec fn board_matches_split(b: Board, idx: int, k: int, r: Board) -> bool {
    &&& 0 <= idx < b.sets@.len()
    &&& 3 <= k <= b.sets@[idx].tiles@.len() - 3
    &&& r.sets@.len() == b.sets@.len() + 1
    &&& forall|q: int| 0 <= q < idx ==> set_eq(#[trigger] r.sets@[q], b.sets@[q])
    &&& forall|q: int|
        idx <= q < b.sets@.len() - 1 ==> set_eq(#[trigger] r.sets@[q], b.sets@[q + 1])
    &&& r.sets@[r.sets@.len() - 2].set_type == SetType::Run
    &&& r.sets@[r.sets@.len() - 2].tiles@ == b.sets@[idx].tiles@.take(k)
    &&& r.sets@.last().set_type == SetType::Run
    &&& r.sets@.last().tiles@ == b.sets@[idx].tiles@.skip(k)
}

/// How a split move rewrites the state: the board splits and the hand is
/// untouched.
pub open spec fn game_matches_split(g: Game, idx: int, k: int, r: Game) -> bool {
    board_matches_split(g.board, idx, k, r.board) && r.player_tiles.tiles@
        == g.player_tiles.tiles@
}

/// The whole split family: one successor per split pair, in enumeration
/// order.
pub open spec fn matches_split_games(g: Game, out: Seq<Game>) -> bool {
    let ps = board_split_pairs(g.board.sets@);
    out.len() == ps.len() && forall|j: int|
        0 <= j < ps.len() ==> game_matches_split(g, ps[j].0, ps[j].1, #[trigger] out[j])
}

/// Copies the tiles between two positions.
fn sub_tiles(v: &Vec<Tile>, from: usize, to: usize) -> (r: Vec<Tile>)
    requires
        from <= to <= v@.len(),
    ensures
        r@ == v@.subrange(from as int, to as int),
{
    let mut r: Vec<Tile> = Vec::new();
    let mut i: usize = from;
    while i < to
        invariant
            from <= i <= to <= v@.len(),
            r@.len() == i - from,
            forall|j: int| 0 <= j < r@.len() ==> r@[j] == v@[from + j],
        decreases to - i,
    {
        r.push(v[i]);
        i += 1;
    }
    proof {
        assert(r@ =~= v@.subrange(from as int, to as int));
    }
    r
}

impl Board {
    /// The two halves of one run for every split point that leaves both
    /// halves at least 3 long, in ascending order of split point.
    pub fn find_run_splits(&self, tiles: &Vec<Tile>) -> (halves: Vec<(TileSet, TileSet)>)
        ensures
            halves@.len() == split_points(tiles@.len() as int).len(),
            forall|j: int|
                0 <= j < halves@.len() ==> {
                    let k = j + 3;
                    (#[trigger] halves@[j]).0.set_type == SetType::Run && halves@[j].0.tiles@
                        == tiles@.take(k) && halves@[j].1.set_type == SetType::Run
                        && halves@[j].1.tiles@ == tiles@.skip(k)
                },
    {
        let mut halves: Vec<(TileSet, TileSet)> = Vec::new();
        if tiles.len() < 6 {
            return halves;
        }
        let mut k: usize = 3;
        while k <= tiles.len() - 3
            invariant
                3 <= k,
                k <= tiles@.len() - 2,
                tiles@.len() >= 6,
                halves@.len() == k - 3,
                forall|j: int|
                    0 <= j < halves@.len() ==> {
                        let kk = j + 3;
                        (#[trigger] halves@[j]).0.set_type == SetType::Run && halves@[j].0.tiles@
                            == tiles@.take(kk) && halves@[j].1.set_type == SetType::Run
                            && halves@[j].1.tiles@ == tiles@.skip(kk)
                    },
            decreases tiles@.len() - k,
        {
            let first_part = TileSet {
                tiles: sub_tiles(tiles, 0, k),
                set_type: SetType::Run,
            };
            let second_part = TileSet {
                tiles: sub_tiles(tiles, k, tiles.len()),
                set_type: SetType::Run,
            };
            proof {
                assert(tiles@.subrange(0, k as int) =~= tiles@.take(k as int));
                assert(tiles@.subrange(k as int, tiles@.len() as int) =~= tiles@.skip(k as int));
            }
            halves.push((first_part, second_part));
            k += 1;
        }
        halves
    }

    /// One new board per legal split of one of this board's runs. On a
    /// valid board every result is valid and holds as many tiles.
    #[verifier::rlimit(100)]
    pub fn split_runs(&self) -> (boards: Vec<Board>)
        ensures
            boards@.len() == board_split_pairs(self.sets@).len(),
            forall|j: int|
                0 <= j < boards@.len() ==> board_matches_split(
                    *self,
                    board_split_pairs(self.sets@)[j].0,
                    board_split_pairs(self.sets@)[j].1,
                    #[trigger] boards@[j],
                ),
            board_valid(*self) ==> forall|j: int|
                0 <= j < boards@.len() ==> board_valid(#[trigger] boards@[j])
                    && sets_tile_count(boards@[j].sets@) == sets_tile_count(self.sets@),
    {
        let mut boards: Vec<Board> = Vec::new();
        let mut i: usize = 0;
        while i < self.sets.len()
            invariant
                i <= self.sets@.len(),
                boards@.len() == board_split_pairs(self.sets@.take(i as int)).len(),
                forall|j: int|
                    0 <= j < boards@.len() ==> game_board_split_inv(
                        *self,
                        board_split_pairs(self.sets@.take(i as int))[j].0,
                        board_split_pairs(self.sets@.take(i as int))[j].1,
                        #[trigger] boards@[j],
                    ),
            decreases self.sets@.len() - i,
        {
            let ghost base = board_split_pairs(self.sets@.take(i as int));
            proof {
                lemma_board_split_pairs_take_step(self.sets@, i);
            }
            let set = &self.sets[i];
            if matches!(set.set_type, SetType::Run) && set.tiles.len() >= 6 {
                let halves = self.find_run_splits(&set.tiles);
                let mut hj: usize = 0;
                while hj < halves.len()
                    invariant
                        hj <= halves@.len(),
                        (i as int) < self.sets@.len(),
                        self.sets@[i as int].set_type == SetType::Run,
                        self.sets@[i as int].tiles@.len() >= 6,
                        halves@.len() == split_points(self.sets@[i as int].tiles@.len() as int).len(),
                        forall|j: int|
                            0 <= j < halves@.len() ==> {
                                let kk = j + 3;
                                (#[trigger] halves@[j]).0.set_type == SetType::Run
                                    && halves@[j].0.tiles@ == self.sets@[i as int].tiles@.take(kk)
                                    && halves@[j].1.set_type == SetType::Run && halves@[j].1.tiles@
                                    == self.sets@[i as int].tiles@.skip(kk)
                            },
                        boards@.len() == base.len() + hj,
                        forall|j: int|
                            0 <= j < base.len() ==> game_board_split_inv(
                                *self,
                                base[j].0,
                                base[j].1,
                                #[trigger] boards@[j],
                            ),
                        forall|j: int|
                            base.len() <= j < boards@.len() ==> game_board_split_inv(
                                *self,
                                i as int,
                                j - base.len() + 3,
                                #[trigger] boards@[j],
                            ),
                    decreases halves@.len() - hj,
                {
                    let ghost k = hj as int + 3;
                    let mut nb = clone_board(self);
                    nb.sets.remove(i);
                    nb.sets.push(clone_set(&halves[hj].0));
                    nb.sets.push(clone_set(&halves[hj].1));
                    proof {
                        let bsets = self.sets@;
                        let rs = nb.sets@;
                        assert(rs.len() == bsets.len() + 1);
                        assert forall|q: int| 0 <= q < i as int implies set_eq(
                            #[trigger] rs[q],
                            bsets[q],
                        ) by {}
                        assert forall|q: int| i as int <= q < bsets.len() - 1 implies set_eq(
                            #[trigger] rs[q],
                            bsets[q + 1],
                        ) by {}
                        assert(board_matches_split(*self, i as int, k, nb));
                        if board_valid(*self) {
                            let rt = bsets[i as int].tiles@;
                            assert(run_tiles_valid(rt));
                            assert(run_tiles_valid(rt.take(k)));
                            assert(run_tiles_valid(rt.skip(k))) by {
                                assert(forall|q: int|
                                    0 <= q < rt.skip(k).len() ==> rt.skip(k)[q] == rt[q + k]);
                            }
                            assert forall|q: int| 0 <= q < rs.len() implies set_valid(
                                #[trigger] rs[q],
                            ) by {
                                if q < bsets.len() - 1 {
                                    if q < i as int {
                                        assert(set_eq(rs[q], bsets[q]));
                                        assert(set_valid(bsets[q]));
                                    } else {
                                        assert(set_eq(rs[q], bsets[q + 1]));
                                        assert(set_valid(bsets[q + 1]));
                                    }
                                }
                            }
                            assert(sets_tile_count(rs) == sets_tile_count(bsets)) by {
                                let cloned = rs.subrange(0, bsets.len() - 1).insert(
                                    i as int,
                                    bsets[i as int],
                                );
                                assert(sets_tile_count(rs) == sets_tile_count(
                                    rs.drop_last().drop_last(),
                                ) + rt.take(k).len() + rt.skip(k).len()) by {
                                    assert(rs.drop_last().drop_last().push(rs[rs.len() - 2])
                                        =~= rs.drop_last());
                                    lemma_sets_count_push(
                                        rs.drop_last().drop_last(),
                                        rs[rs.len() - 2],
                                    );
                                    lemma_sets_count_push(rs.drop_last(), rs.last());
                                }
                                let trimmed = rs.drop_last().drop_last();
                                assert(trimmed.len() == bsets.len() - 1);
                                let mid = trimmed.insert(i as int, bsets[i as int]);
                                assert(mid.len() == bsets.len());
                                assert(forall|q: int|
                                    0 <= q < mid.len() ==> set_eq(#[trigger] mid[q], bsets[q]));
                                lemma_sets_count_congruence(mid, bsets);
                                lemma_sets_count_remove(mid, i as int);
                                assert(mid.remove(i as int) =~= trimmed);
                            }
                        }
                        assert(game_board_split_inv(*self, i as int, k, nb));
                    }
                    boards.push(nb);
                    hj += 1;
                }
                proof {
                    let stepped = board_split_pairs(self.sets@.take(i as int + 1));
                    let tail = split_points(self.sets@[i as int].tiles@.len() as int).map_values(
                        |kk: int| (i as int, kk),
                    );
                    assert(stepped == base + tail);
                    assert forall|j: int| 0 <= j < boards@.len() implies game_board_split_inv(
                        *self,
                        stepped[j].0,
                        stepped[j].1,
                        #[trigger] boards@[j],
                    ) by {
                        if j < base.len() {
                            assert(stepped[j] == base[j]);
                        } else {
                            assert(stepped[j] == tail[j - base.len()]);
                            assert(tail[j - base.len()] == (i as int, j - base.len() + 3));
                        }
                    }
                }
            } else {
                proof {
                    assert(board_split_pairs(self.sets@.take(i as int + 1)) =~= base);
                }
            }
            i += 1;
        }
        proof {
            assert(self.sets@.take(i as int) =~= self.sets@);
        }
        boards
    }
}

/// The per-board split obligations that `split_runs` maintains: the shape
/// of the split, and validity with conservation on a valid board.
pub open spec fn game_board_split_inv(b: Board, idx: int, k: int, r: Board) -> bool {
    board_matches_split(b, idx, k, r) && (board_valid(b) ==> board_valid(r) && sets_tile_count(
        r.sets@,
    ) == sets_tile_count(b.sets@))
}

impl Game {
    /// Successor states that split one long run in two; the hand is
    /// untouched.
    pub fn split_games(&self) -> (games: Vec<Game>)
        requires
            game_valid(*self),
        ensures
            matches_split_games(*self, games@),
            forall|j: int|
                0 <= j < games@.len() ==> game_valid(#[trigger] games@[j]) && game_tile_count(
                    games@[j],
                ) == game_tile_count(*self),
    {
        let boards = self.board.split_runs();
        let mut games: Vec<Game> = Vec::new();
        let mut bi: usize = 0;
        while bi < boards.len()
            invariant
                bi <= boards@.len(),
                game_valid(*self),
                boards@.len() == board_split_pairs(self.board.sets@).len(),
                forall|j: int|
                    0 <= j < boards@.len() ==> board_matches_split(
                        self.board,
                        board_split_pairs(self.board.sets@)[j].0,
                        board_split_pairs(self.board.sets@)[j].1,
                        #[trigger] boards@[j],
                    ),
                forall|j: int|
                    0 <= j < boards@.len() ==> board_valid(#[trigger] boards@[j])
                        && sets_tile_count(boards@[j].sets@) == sets_tile_count(self.board.sets@),
                games@.len() == bi,
                forall|j: int|
                    0 <= j < bi ==> game_matches_split(
                        *self,
                        board_split_pairs(self.board.sets@)[j].0,
                        board_split_pairs(self.board.sets@)[j].1,
                        #[trigger] games@[j],
                    ),
                forall|j: int|
                    0 <= j < games@.len() ==> game_valid(#[trigger] games@[j])
                        && game_tile_count(games@[j]) == game_tile_count(*self),
            decreases boards@.len() - bi,
        {
            let nb = clone_board(&boards[bi]);
            let new_game = Game {
                board: nb,
                player_tiles: Player { tiles: clone_tiles(&self.player_tiles.tiles) },
            };
            proof {
                let ps = board_split_pairs(self.board.sets@);
                let idx = ps[bi as int].0;
                let k = ps[bi as int].1;
                let cb = boards@[bi as int];
                assert(board_matches_split(self.board, idx, k, cb));
                assert(new_game.board.sets@.len() == cb.sets@.len());
                assert forall|q: int| 0 <= q < cb.sets@.len() implies set_eq(
                    #[trigger] new_game.board.sets@[q],
                    cb.sets@[q],
                ) by {}
                assert(board_matches_split(self.board, idx, k, new_game.board));
                assert forall|q: int| 0 <= q < new_game.board.sets@.len() implies set_valid(
                    #[trigger] new_game.board.sets@[q],
                ) by {
                    assert(set_eq(new_game.board.sets@[q], cb.sets@[q]));
                    assert(set_valid(cb.sets@[q]));
                }
                lemma_sets_count_congruence(new_game.board.sets@, cb.sets@);
            }
            games.push(new_game);
            bi += 1;
        }
        games
    }

    /// Every legal successor of a valid state, in the fixed family order:
    /// add a tile, take a tile, lay a new set, split a run. Every successor
    /// is valid and holds exactly as many tiles as this state.
    pub fn get_legal_moves(&self) -> (games: Vec<Game>)
        requires
            game_valid(*self),
        ensures
            matches_legal_moves(*self, games@),
            forall|j: int|
                0 <= j < games@.len() ==> game_valid(#[trigger] games@[j]) && game_tile_count(
                    games@[j],
                ) == game_tile_count(*self),
    {
        let mut games = self.get_adding_tiles_games();
        let mut taking = self.get_taking_tiles_games();
        let mut creating = self.create_new_sets_games();
        let mut splitting = self.split_games();
        let ghost ga = games@;
        let ghost gt = taking@;
        let ghost gc = creating@;
        let ghost gs = splitting@;
        games.append(&mut taking);
        games.append(&mut creating);
        games.append(&mut splitting);
        proof {
            let la = ga.len() as int;
            let lt = gt.len() as int;
            let lc = gc.len() as int;
            assert(games@.take(la) =~= ga);
            assert(games@.subrange(la, la + lt) =~= gt);
            assert(games@.subrange(la + lt, la + lt + lc) =~= gc);
            assert(games@.skip(la + lt + lc) =~= gs);
        }
        games
    }
}

/// How many legal successors a state has, over all four families.
pub open spec fn legal_move_total(g: Game) -> int {
    eligible_moves(board_add_moves(g.board.sets@), g.player_tiles.tiles@).len() as int
        + board_take_moves(g.board.sets@).len() + group_candidates_upto(
        g.player_tiles.tiles@,
        13,
    ).len() + run_candidates_upto(g.player_tiles.tiles@, 4).len() + board_split_pairs(
        g.board.sets@,
    ).len()
}

proof fn lemma_eligible_moves_tiles_held(moves: Seq<TileMove>, hand: Seq<Tile>)
    ensures
        forall|j: int|
            0 <= j < eligible_moves(moves, hand).len() ==> hand_has_tile(
                hand,
                (#[trigger] eligible_moves(moves, hand)[j]).tile,
            ),
    decreases moves.len(),
{
    if moves.len() > 0 {
        lemma_eligible_moves_tiles_held(moves.drop_last(), hand);
        let rest = eligible_moves(moves.drop_last(), hand);
        assert forall|j: int| 0 <= j < eligible_moves(moves, hand).len() implies hand_has_tile(
            hand,
            (#[trigger] eligible_moves(moves, hand)[j]).tile,
        ) by {
            if j < rest.len() {
                assert(eligible_moves(moves, hand)[j] == rest[j]);
            }
        }
    }
}

proof fn lemma_remove_first_tile_len(hand: Seq<Tile>, t: Tile)
    requires
        hand_has_tile(hand, t),
    ensures
        remove_first_tile(hand, t).len() == hand.len() - 1,
{
    lemma_first_tile_index(hand, t);
}

proof fn lemma_remove_tiles_len(hand: Seq<Tile>, tiles: Seq<Tile>)
    requires
        forall|i: int| 0 <= i < tiles.len() ==> hand_has_tile(hand, #[trigger] tiles[i]),
        forall|i: int, j: int| 0 <= i < j < tiles.len() ==> tiles[i] != tiles[j],
    ensures
        remove_tiles(hand, tiles).len() == hand.len() - tiles.len(),
    decreases tiles.len(),
{
    if tiles.len() > 0 {
        let h2 = remove_first_tile(hand, tiles[0]);
        lemma_remove_first_tile_len(hand, tiles[0]);
        let rest = tiles.drop_first();
        assert forall|i: int| 0 <= i < rest.len() implies hand_has_tile(
            h2,
            #[trigger] rest[i],
        ) by {
            assert(rest[i] == tiles[i + 1]);
            assert(tiles[i + 1] != tiles[0]);
            lemma_remove_first_preserves(hand, tiles[0], tiles[i + 1]);
        }
        assert forall|i: int, j: int| 0 <= i < j < rest.len() implies rest[i] != rest[j] by {
            assert(rest[i] == tiles[i + 1] && rest[j] == tiles[j + 1]);
        }
        lemma_remove_tiles_len(h2, rest);
    }
}

proof fn lemma_group_candidate_facts(hand: Seq<Tile>, n: int)
    ensures
        forall|i: int|
            0 <= i < group_candidate(hand, n).len() ==> hand_has_tile(
                hand,
                #[trigger] group_candidate(hand, n)[i],
            ),
        forall|i: int, j: int|
            0 <= i < j < group_candidate(hand, n).len() ==> group_candidate(hand, n)[i]
                != group_candidate(hand, n)[j],
{
    let m = tiles_with_number(hand, n);
    lemma_tiles_with_number_elems(hand, n);
    lemma_dedup_colors_facts(m);
    let d = group_candidate(hand, n);
    assert forall|i: int| 0 <= i < d.len() implies hand_has_tile(hand, #[trigger] d[i]) by {
        assert(hand_has_tile(m, d[i]));
        let w = choose|q: int| 0 <= q < m.len() && m[q] == d[i];
        assert(hand_has_tile(hand, m[w]));
    }
    assert forall|i: int, j: int| 0 <= i < j < d.len() implies d[i] != d[j] by {
        assert(d[i].color != d[j].color);
    }
}

proof fn lemma_group_candidates_facts(hand: Seq<Tile>, n: int)
    ensures
        forall|j: int|
            0 <= j < group_candidates_upto(hand, n).len() ==> ({
                let c = #[trigger] group_candidates_upto(hand, n)[j];
                &&& c.len() >= 3
                &&& forall|i: int| 0 <= i < c.len() ==> hand_has_tile(hand, #[trigger] c[i])
                &&& forall|i: int, q: int| 0 <= i < q < c.len() ==> c[i] != c[q]
            }),
    decreases n,
{
    if n > 0 {
        lemma_group_candidates_facts(hand, n - 1);
        let rest = group_candidates_upto(hand, n - 1);
        if group_candidate(hand, n).len() >= 3 {
            lemma_group_candidate_facts(hand, n);
        }
        assert forall|j: int| 0 <= j < group_candidates_upto(hand, n).len() implies ({
            let c = #[trigger] group_candidates_upto(hand, n)[j];
            &&& c.len() >= 3
            &&& forall|i: int| 0 <= i < c.len() ==> hand_has_tile(hand, #[trigger] c[i])
            &&& forall|i: int, q: int| 0 <= i < q < c.len() ==> c[i] != c[q]
        }) by {
            if j < rest.len() {
                assert(group_candidates_upto(hand, n)[j] == rest[j]);
            }
        }
    }
}

proof fn lemma_run_candidate_facts(hand: Seq<Tile>, c: Color)
    ensures
        forall|i: int|
            0 <= i < run_candidate(hand, c).len() ==> hand_has_tile(
                hand,
                #[trigger] run_candidate(hand, c)[i],
            ),
        forall|i: int, j: int|
            0 <= i < j < run_candidate(hand, c).len() ==> run_candidate(hand, c)[i]
                != run_candidate(hand, c)[j],
{
    let p = color_presence(hand, c);
    lemma_best_start_range(p, 1);
    let s = best_start(p, 1);
    lemma_streak_len_bounds(p, s);
    let rc = run_candidate(hand, c);
    assert forall|i: int| 0 <= i < rc.len() implies hand_has_tile(hand, #[trigger] rc[i]) by {
        assert(p[s + i]);
        assert(hand_has_number(hand, c, s + i));
        let w = choose|y: int|
            0 <= y < hand.len() && hand[y].color == c && tile_is_number(#[trigger] hand[y])
                && tile_number(hand[y]) == s + i;
        assert(hand[w] == rc[i]);
    }
}

proof fn lemma_run_candidates_facts(hand: Seq<Tile>, k: int)
    requires
        k <= 4,
    ensures
        forall|j: int|
            0 <= j < run_candidates_upto(hand, k).len() ==> ({
                let c = #[trigger] run_candidates_upto(hand, k)[j];
                &&& c.len() >= 3
                &&& forall|i: int| 0 <= i < c.len() ==> hand_has_tile(hand, #[trigger] c[i])
                &&& forall|i: int, q: int| 0 <= i < q < c.len() ==> c[i] != c[q]
            }),
    decreases k,
{
    if k > 0 {
        lemma_run_candidates_facts(hand, k - 1);
        let rest = run_candidates_upto(hand, k - 1);
        lemma_run_candidate_facts(hand, colors_order()[k - 1]);
        assert forall|j: int| 0 <= j < run_candidates_upto(hand, k).len() implies ({
            let c = #[trigger] run_candidates_upto(hand, k)[j];
            &&& c.len() >= 3
            &&& forall|i: int| 0 <= i < c.len() ==> hand_has_tile(hand, #[trigger] c[i])
            &&& forall|i: int, q: int| 0 <= i < q < c.len() ==> c[i] != c[q]
        }) by {
            if j < rest.len() {
                assert(run_candidates_upto(hand, k)[j] == rest[j]);
            }
        }
    }
}

/// How many tiles the player would hold after the `j`-th legal move:
/// adding a tile frees one, taking one adds one, laying a set frees the
/// set's tiles, splitting frees none.
pub open spec fn successor_hand_len(g: Game, j: int) -> int {
    let la = eligible_moves(board_add_moves(g.board.sets@), g.player_tiles.tiles@).len() as int;
    let lt = board_take_moves(g.board.sets@).len() as int;
    let gc = group_candidates_upto(g.player_tiles.tiles@, 13);
    let rc = run_candidates_upto(g.player_tiles.tiles@, 4);
    if j < la {
        hand_len(g) - 1
    } else if j < la + lt {
        hand_len(g) + 1
    } else if j < la + lt + gc.len() {
        hand_len(g) - gc[j - la - lt].len()
    } else if j < la + lt + gc.len() + rc.len() {
        hand_len(g) - rc[j - la - lt - gc.len()].len()
    } else {
        hand_len(g)
    }
}

/// Law: the generator's output determines each successor's hand size — the
/// `j`-th successor of any sequence that matches the generator's contract
/// holds exactly `successor_hand_len(g, j)` tiles.
pub proof fn lemma_successor_hand_lens(g: Game, out: Seq<Game>)
    requires
        matches_legal_moves(g, out),
    ensures
        forall|j: int|
            0 <= j < out.len() ==> hand_len(#[trigger] out[j]) == successor_hand_len(g, j),
{
    let hand = g.player_tiles.tiles@;
    let ms = eligible_moves(board_add_moves(g.board.sets@), hand);
    let la = ms.len() as int;
    let lt = board_take_moves(g.board.sets@).len() as int;
    let gc = group_candidates_upto(hand, 13);
    let rc = run_candidates_upto(hand, 4);
    lemma_eligible_moves_tiles_held(board_add_moves(g.board.sets@), hand);
    lemma_group_candidates_facts(hand, 13);
    lemma_run_candidates_facts(hand, 4);
    assert forall|j: int| 0 <= j < out.len() implies hand_len(#[trigger] out[j])
        == successor_hand_len(g, j) by {
        if j < la {
            assert(out.take(la)[j] == out[j]);
            assert(game_matches_add(g, ms[j], out.take(la)[j]));
            lemma_remove_first_tile_len(hand, ms[j].tile);
        } else if j < la + lt {
            assert(out.subrange(la, la + lt)[j - la] == out[j]);
            assert(game_matches_take(g, board_take_moves(g.board.sets@)[j - la], out.subrange(
                la,
                la + lt,
            )[j - la]));
        } else if j < la + lt + gc.len() + rc.len() {
            let mid = out.subrange(la + lt, la + lt + gc.len() + rc.len() as int);
            assert(mid[j - la - lt] == out[j]);
            if j < la + lt + gc.len() {
                let cand = gc[j - la - lt];
                assert(game_matches_create(g, cand, SetType::Group, mid[j - la - lt]));
                lemma_remove_tiles_len(hand, cand);
            } else {
                let cand = rc[j - la - lt - gc.len()];
                assert(game_matches_create(g, cand, SetType::Run, mid[j - la - lt]));
                lemma_remove_tiles_len(hand, cand);
            }
        } else {
            let tail = out.skip(la + lt + gc.len() + rc.len() as int);
            assert(tail[j - la - lt - gc.len() - rc.len()] == out[j]);
            let ps = board_split_pairs(g.board.sets@);
            assert(game_matches_split(
                g,
                ps[j - la - lt - gc.len() - rc.len()].0,
                ps[j - la - lt - gc.len() - rc.len()].1,
                tail[j - la - lt - gc.len() - rc.len()],
            ));
        }
    }
}

/// The whole move generator: the four families concatenated in their fixed
/// order.
pub open spec fn matches_legal_moves(g: Game, out: Seq<Game>) -> bool {
    let la = eligible_moves(board_add_moves(g.board.sets@), g.player_tiles.tiles@).len() as int;
    let lt = board_take_moves(g.board.sets@).len() as int;
    let lc = (group_candidates_upto(g.player_tiles.tiles@, 13).len() + run_candidates_upto(
        g.player_tiles.tiles@,
        4,
    ).len()) as int;
    let ls = board_split_pairs(g.board.sets@).len() as int;
    &&& out.len() == la + lt + lc + ls
    &&& out.len() == legal_move_total(g)
    &&& matches_adding_games(g, out.take(la))
    &&& matches_taking_games(g, out.subrange(la, la + lt))
    &&& matches_create_games(g, out.subrange(la + lt, la + lt + lc))
    &&& matches_split_games(g, out.skip(la + lt + lc))
}

} // verus!
