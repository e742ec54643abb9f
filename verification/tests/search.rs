use rummikub_solver::brute_force::{
    check_if_game_best, find_best_game, find_best_game_brute_force, insert_visited,
};
use rummikub_solver::game::{games_equal, Board, Game, Player, SetType, TileSet};
use rummikub_solver::tile::{Color, Tile, TileValue};

fn t(n: u8, c: Color) -> Tile {
    Tile { value: TileValue::Number(n), color: c }
}

fn run_set(first: u8, last: u8, c: Color) -> TileSet {
    let mut tiles = Vec::new();
    let mut n = first;
    while n <= last {
        tiles.push(t(n, c));
        n += 1;
    }
    TileSet { tiles, set_type: SetType::Run }
}

fn group_set(n: u8, colors: &[Color]) -> TileSet {
    let mut tiles = Vec::new();
    for c in colors {
        tiles.push(t(n, *c));
    }
    TileSet { tiles, set_type: SetType::Group }
}

fn game(sets: Vec<TileSet>, hand: Vec<Tile>) -> Game {
    Game { board: Board { sets }, player_tiles: Player { tiles: hand } }
}

#[test]
fn second_insertion_reports_already_present() {
    let g = game(
        vec![group_set(5, &[Color::Red, Color::Blue, Color::Yellow])],
        vec![t(5, Color::Black)],
    );
    let same = game(
        vec![group_set(5, &[Color::Red, Color::Blue, Color::Yellow])],
        vec![t(5, Color::Black)],
    );
    let mut visited: Vec<Game> = Vec::new();
    assert!(insert_visited(&mut visited, &g));
    assert_eq!(visited.len(), 1);
    assert!(!insert_visited(&mut visited, &same));
    assert_eq!(visited.len(), 1);
}

#[test]
fn visited_state_is_not_expanded_again() {
    let g = game(
        vec![group_set(5, &[Color::Red, Color::Blue, Color::Yellow])],
        vec![t(5, Color::Black)],
    );
    let mut visited: Vec<Game> = Vec::new();
    assert!(insert_visited(&mut visited, &g));
    let again = find_best_game(&g, 5, &mut visited);
    assert!(again.is_none());
    assert_eq!(visited.len(), 1);
}

#[test]
fn depth_zero_returns_the_input_unchanged() {
    let g = game(
        vec![run_set(4, 6, Color::Red)],
        vec![t(7, Color::Red), t(1, Color::Blue)],
    );
    let mut visited: Vec<Game> = Vec::new();
    let best = find_best_game(&g, 0, &mut visited);
    match best {
        Some(b) => assert!(games_equal(&b, &g)),
        None => panic!("a fresh search at depth zero must return the input"),
    }
}

#[test]
fn folding_candidates_never_worsens_the_best() {
    let hands: [usize; 5] = [3, 2, 2, 4, 1];
    let mut best: Option<Game> = None;
    let mut last_len = usize::MAX;
    for n in hands {
        let mut hand = Vec::new();
        for i in 0..n {
            hand.push(t((i + 1) as u8, Color::Red));
        }
        let candidate = game(vec![], hand);
        check_if_game_best(&candidate, &mut best);
        let now = best.as_ref().unwrap().player_tiles_length();
        assert!(now <= last_len);
        last_len = now;
    }
    assert_eq!(last_len, 1);
}

#[test]
fn ties_keep_the_first_candidate_found() {
    let first = game(vec![], vec![t(1, Color::Red), t(2, Color::Red)]);
    let second = game(vec![], vec![t(9, Color::Blue), t(10, Color::Blue)]);
    let mut best: Option<Game> = None;
    check_if_game_best(&first, &mut best);
    check_if_game_best(&second, &mut best);
    assert!(games_equal(best.as_ref().unwrap(), &first));
}

#[test]
fn brute_force_empties_the_hand_when_it_can() {
    let g = game(
        vec![group_set(5, &[Color::Red, Color::Blue, Color::Yellow])],
        vec![t(5, Color::Black)],
    );
    let best = find_best_game_brute_force(&g).expect("a legal move exists");
    assert_eq!(best.player_tiles_length(), 0);
    assert_eq!(best.count_tiles(), g.count_tiles());
    assert!(best.is_valid());
}

#[test]
fn brute_force_reports_nothing_without_moves() {
    let g = game(
        vec![group_set(5, &[Color::Red, Color::Blue, Color::Yellow])],
        vec![t(1, Color::Red)],
    );
    assert!(g.get_legal_moves().is_empty());
    // At depth zero the state itself is the answer ...
    let mut fresh: Vec<Game> = Vec::new();
    let at_zero = find_best_game(&g, 0, &mut fresh);
    assert!(games_equal(&at_zero.unwrap(), &g));
    // ... while a deeper search over no successors reports the
    // "no better game found" outcome as an empty result.
    let mut fresh2: Vec<Game> = Vec::new();
    assert!(find_best_game(&g, 3, &mut fresh2).is_none());
    assert!(find_best_game_brute_force(&g).is_none());
}

#[test]
fn search_keeps_the_fewest_tile_state_across_depths() {
    // The run 1..=6 can give up an end tile or be split; giving one up and
    // then laying nothing leaves the hand larger, so the best keeps the
    // smallest hand it ever saw.
    let g = game(
        vec![run_set(1, 6, Color::Blue)],
        vec![t(7, Color::Blue)],
    );
    let best = find_best_game_brute_force(&g).expect("moves exist");
    assert_eq!(best.player_tiles_length(), 0);
    assert!(best.is_valid());
    assert_eq!(best.count_tiles(), 7);
}
