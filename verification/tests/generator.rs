use rummikub_solver::game::{Board, Game, Player, SetType, TileSet};
use rummikub_solver::tile::{Color, Tile, TileValue};

fn t(n: u8, c: Color) -> Tile {
    Tile { value: TileValue::Number(n), color: c }
}

fn run_set(first: u8, last: u8, c: Color) -> TileSet {
    let mut tiles = Vec::new();
    let mut n = first;
    while n <= last {
        tiles.push(t(n, c));
        n += 1;
    }
    TileSet { tiles, set_type: SetType::Run }
}

fn group_set(n: u8, colors: &[Color]) -> TileSet {
    let mut tiles = Vec::new();
    for c in colors {
        tiles.push(t(n, *c));
    }
    TileSet { tiles, set_type: SetType::Group }
}

fn game(sets: Vec<TileSet>, hand: Vec<Tile>) -> Game {
    Game { board: Board { sets }, player_tiles: Player { tiles: hand } }
}

#[test]
fn group_extension_uses_held_tile() {
    let g = game(
        vec![group_set(5, &[Color::Red, Color::Blue, Color::Yellow])],
        vec![t(5, Color::Black)],
    );
    assert!(g.is_valid());
    let moves = g.get_legal_moves();
    assert_eq!(moves.len(), 1);
    let succ = &moves[0];
    assert!(succ.is_valid());
    assert_eq!(succ.board.sets.len(), 1);
    assert_eq!(succ.board.sets[0].tiles.len(), 4);
    assert!(succ.board.sets[0].tiles.contains(&t(5, Color::Black)));
    assert!(succ.player_tiles.tiles.is_empty());
}

#[test]
fn run_extension_appends_held_tile() {
    let g = game(vec![run_set(4, 6, Color::Red)], vec![t(7, Color::Red)]);
    assert!(g.is_valid());
    let moves = g.get_legal_moves();
    assert_eq!(moves.len(), 1);
    let succ = &moves[0];
    assert_eq!(
        succ.board.sets[0].tiles,
        vec![t(4, Color::Red), t(5, Color::Red), t(6, Color::Red), t(7, Color::Red)]
    );
    assert!(succ.player_tiles.tiles.is_empty());
}

#[test]
fn run_prepend_uses_held_tile() {
    let g = game(vec![run_set(4, 6, Color::Red)], vec![t(3, Color::Red)]);
    let moves = g.get_legal_moves();
    assert_eq!(moves.len(), 1);
    assert_eq!(
        moves[0].board.sets[0].tiles,
        vec![t(3, Color::Red), t(4, Color::Red), t(5, Color::Red), t(6, Color::Red)]
    );
}

#[test]
fn every_successor_conserves_tiles() {
    let g = game(
        vec![
            group_set(5, &[Color::Red, Color::Blue, Color::Yellow]),
            run_set(1, 6, Color::Blue),
        ],
        vec![t(5, Color::Black), t(7, Color::Blue), t(1, Color::Red), t(2, Color::Red), t(3, Color::Red)],
    );
    assert!(g.is_valid());
    let total = g.count_tiles();
    let moves = g.get_legal_moves();
    assert!(moves.len() > 0);
    for succ in &moves {
        assert_eq!(succ.count_tiles(), total);
    }
}

#[test]
fn every_successor_is_valid() {
    let g = game(
        vec![
            group_set(5, &[Color::Red, Color::Blue, Color::Yellow]),
            run_set(1, 6, Color::Blue),
            group_set(9, &[Color::Red, Color::Blue, Color::Yellow, Color::Black]),
        ],
        vec![t(5, Color::Black), t(7, Color::Blue), t(1, Color::Red), t(2, Color::Red), t(3, Color::Red)],
    );
    assert!(g.is_valid());
    let moves = g.get_legal_moves();
    assert!(moves.len() > 0);
    for succ in &moves {
        assert!(succ.is_valid());
    }
}

#[test]
fn run_split_produces_two_halves() {
    let g = game(vec![run_set(1, 6, Color::Blue)], vec![]);
    assert!(g.is_valid());
    let splits = g.split_games();
    assert_eq!(splits.len(), 1);
    let succ = &splits[0];
    assert_eq!(succ.board.sets.len(), 2);
    assert!(matches!(succ.board.sets[0].set_type, SetType::Run));
    assert!(matches!(succ.board.sets[1].set_type, SetType::Run));
    assert_eq!(
        succ.board.sets[0].tiles,
        vec![t(1, Color::Blue), t(2, Color::Blue), t(3, Color::Blue)]
    );
    assert_eq!(
        succ.board.sets[1].tiles,
        vec![t(4, Color::Blue), t(5, Color::Blue), t(6, Color::Blue)]
    );
    for s in &g.get_legal_moves() {
        for set in &s.board.sets {
            assert!(set.tiles.len() >= 3);
        }
    }
}

#[test]
fn longer_run_offers_every_balanced_split() {
    let g = game(vec![run_set(1, 8, Color::Yellow)], vec![]);
    let splits = g.split_games();
    assert_eq!(splits.len(), 3);
    for succ in &splits {
        assert!(succ.is_valid());
        assert_eq!(succ.board.sets.len(), 2);
        assert!(succ.board.sets[0].tiles.len() >= 3);
        assert!(succ.board.sets[1].tiles.len() >= 3);
    }
}

#[test]
fn no_opportunity_yields_no_moves() {
    let g = game(
        vec![group_set(5, &[Color::Red, Color::Blue, Color::Yellow])],
        vec![t(1, Color::Red)],
    );
    assert!(g.is_valid());
    let moves = g.get_legal_moves();
    assert!(moves.is_empty());
}

#[test]
fn group_creation_from_hand() {
    let g = game(
        vec![],
        vec![t(5, Color::Red), t(5, Color::Blue), t(5, Color::Yellow), t(9, Color::Black)],
    );
    let moves = g.get_legal_moves();
    assert_eq!(moves.len(), 1);
    let succ = &moves[0];
    assert_eq!(succ.board.sets.len(), 1);
    assert!(matches!(succ.board.sets[0].set_type, SetType::Group));
    assert_eq!(
        succ.board.sets[0].tiles,
        vec![t(5, Color::Red), t(5, Color::Blue), t(5, Color::Yellow)]
    );
    assert_eq!(succ.player_tiles.tiles, vec![t(9, Color::Black)]);
}

#[test]
fn group_creation_skips_duplicate_colors() {
    let g = game(
        vec![],
        vec![t(5, Color::Red), t(5, Color::Red), t(5, Color::Blue), t(5, Color::Yellow)],
    );
    let moves = g.get_legal_moves();
    assert_eq!(moves.len(), 1);
    let succ = &moves[0];
    assert_eq!(
        succ.board.sets[0].tiles,
        vec![t(5, Color::Red), t(5, Color::Blue), t(5, Color::Yellow)]
    );
    assert_eq!(succ.player_tiles.tiles, vec![t(5, Color::Red)]);
}

#[test]
fn run_creation_from_hand() {
    let g = game(
        vec![],
        vec![t(7, Color::Blue), t(9, Color::Blue), t(8, Color::Blue), t(2, Color::Red)],
    );
    let moves = g.get_legal_moves();
    assert_eq!(moves.len(), 1);
    let succ = &moves[0];
    assert!(matches!(succ.board.sets[0].set_type, SetType::Run));
    assert_eq!(
        succ.board.sets[0].tiles,
        vec![t(7, Color::Blue), t(8, Color::Blue), t(9, Color::Blue)]
    );
    assert_eq!(succ.player_tiles.tiles, vec![t(2, Color::Red)]);
}

#[test]
fn run_creation_picks_longest_streak() {
    let g = game(
        vec![],
        vec![
            t(1, Color::Blue),
            t(2, Color::Blue),
            t(3, Color::Blue),
            t(5, Color::Blue),
            t(6, Color::Blue),
            t(7, Color::Blue),
            t(8, Color::Blue),
        ],
    );
    let moves = g.get_legal_moves();
    assert_eq!(moves.len(), 1);
    let succ = &moves[0];
    assert_eq!(
        succ.board.sets[0].tiles,
        vec![t(5, Color::Blue), t(6, Color::Blue), t(7, Color::Blue), t(8, Color::Blue)]
    );
}

#[test]
fn run_creation_prefers_earliest_on_tie() {
    let g = game(
        vec![],
        vec![
            t(5, Color::Yellow),
            t(6, Color::Yellow),
            t(7, Color::Yellow),
            t(1, Color::Yellow),
            t(2, Color::Yellow),
            t(3, Color::Yellow),
        ],
    );
    let moves = g.get_legal_moves();
    assert_eq!(moves.len(), 1);
    assert_eq!(
        moves[0].board.sets[0].tiles,
        vec![t(1, Color::Yellow), t(2, Color::Yellow), t(3, Color::Yellow)]
    );
}

#[test]
fn take_from_long_run_frees_both_ends() {
    let g = game(vec![run_set(1, 4, Color::Red)], vec![]);
    let moves = g.get_legal_moves();
    assert_eq!(moves.len(), 2);
    assert_eq!(
        moves[0].board.sets[0].tiles,
        vec![t(2, Color::Red), t(3, Color::Red), t(4, Color::Red)]
    );
    assert_eq!(moves[0].player_tiles.tiles, vec![t(1, Color::Red)]);
    assert_eq!(
        moves[1].board.sets[0].tiles,
        vec![t(1, Color::Red), t(2, Color::Red), t(3, Color::Red)]
    );
    assert_eq!(moves[1].player_tiles.tiles, vec![t(4, Color::Red)]);
}

#[test]
fn take_from_four_tile_group_frees_each_tile() {
    let g = game(
        vec![group_set(5, &[Color::Red, Color::Blue, Color::Yellow, Color::Black])],
        vec![],
    );
    let moves = g.get_legal_moves();
    assert_eq!(moves.len(), 4);
    assert_eq!(moves[0].player_tiles.tiles, vec![t(5, Color::Red)]);
    assert_eq!(
        moves[0].board.sets[0].tiles,
        vec![t(5, Color::Blue), t(5, Color::Yellow), t(5, Color::Black)]
    );
    assert_eq!(moves[3].player_tiles.tiles, vec![t(5, Color::Black)]);
    for succ in &moves {
        assert!(succ.is_valid());
        assert_eq!(succ.board.sets[0].tiles.len(), 3);
        assert_eq!(succ.player_tiles.tiles.len(), 1);
    }
}

#[test]
fn count_tiles_sums_board_and_hand() {
    let g = game(
        vec![
            group_set(5, &[Color::Red, Color::Blue, Color::Yellow]),
            run_set(1, 6, Color::Blue),
        ],
        vec![t(9, Color::Black), t(11, Color::Red)],
    );
    assert_eq!(g.count_tiles(), 11);
    assert_eq!(g.player_tiles_length(), 2);
}

#[test]
fn grouping_by_number_keeps_hand_order() {
    let g = game(
        vec![],
        vec![t(5, Color::Black), t(3, Color::Red), t(5, Color::Red), t(5, Color::Black)],
    );
    assert_eq!(
        g.group_tiles_by_number(5),
        vec![t(5, Color::Black), t(5, Color::Red), t(5, Color::Black)]
    );
    assert_eq!(g.group_tiles_by_number(3), vec![t(3, Color::Red)]);
    assert!(g.group_tiles_by_number(9).is_empty());
}

#[test]
fn consecutive_tiles_ignore_other_colors_and_jokers() {
    let mut hand = vec![t(2, Color::Red), t(4, Color::Blue), t(3, Color::Red), t(4, Color::Red)];
    hand.push(Tile { value: TileValue::Joker, color: Color::Red });
    let g = game(vec![], hand);
    assert_eq!(
        g.find_consecutive_tiles(Color::Red),
        vec![t(2, Color::Red), t(3, Color::Red), t(4, Color::Red)]
    );
    assert_eq!(g.find_consecutive_tiles(Color::Blue), vec![t(4, Color::Blue)]);
    assert!(g.find_consecutive_tiles(Color::Yellow).is_empty());
}

#[test]
fn distinct_color_check_spots_duplicates() {
    let distinct = vec![t(5, Color::Red), t(5, Color::Blue), t(5, Color::Yellow)];
    assert!(Game::all_different_colors(&distinct));
    let duplicated = vec![t(5, Color::Red), t(5, Color::Blue), t(5, Color::Red)];
    assert!(!Game::all_different_colors(&duplicated));
    assert!(Game::all_different_colors(&Vec::new()));
}

#[test]
fn validity_checks_reject_malformed_sets() {
    let dup_color = game(vec![group_set(5, &[Color::Red, Color::Red, Color::Blue])], vec![]);
    assert!(!dup_color.is_valid());
    let gap = game(
        vec![TileSet {
            tiles: vec![t(1, Color::Red), t(2, Color::Red), t(4, Color::Red)],
            set_type: SetType::Run,
        }],
        vec![],
    );
    assert!(!gap.is_valid());
    let short = game(
        vec![TileSet {
            tiles: vec![t(1, Color::Red), t(2, Color::Red)],
            set_type: SetType::Run,
        }],
        vec![],
    );
    assert!(!short.is_valid());
    let mixed_color_run = game(
        vec![TileSet {
            tiles: vec![t(1, Color::Red), t(2, Color::Blue), t(3, Color::Red)],
            set_type: SetType::Run,
        }],
        vec![],
    );
    assert!(!mixed_color_run.is_valid());
    let ok = game(
        vec![group_set(13, &[Color::Red, Color::Blue, Color::Black]), run_set(11, 13, Color::Red)],
        vec![t(1, Color::Red)],
    );
    assert!(ok.is_valid());
}
