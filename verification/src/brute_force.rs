//! The search engine: depth-bounded depth-first exploration of the states
//! the move generator can reach, deduplicating revisited states and keeping
//! the candidate that leaves the player holding the fewest tiles.
use vstd::prelude::*;

use crate::game::{
    clone_game, game_eq, game_tile_count, game_valid, games_equal, hand_len,
    lemma_game_eq_congruence, Game,
};
use crate::moves::{lemma_successor_hand_lens, legal_move_total, successor_hand_len};

verus! {

/// How many moves deep the exhaustive search explores.
pub const DEPTH: usize = 15;

/// True when the visited collection already holds a state structurally
/// equal to `g`.
pub open spec fn visited_contains(s: Seq<Game>, g: Game) -> bool {
    exists|i: int| 0 <= i < s.len() && game_eq(s[i], g)
}

/// Records a state as visited unless a structurally equal one was already
/// recorded. Returns true exactly when the state was new; recording an
/// already-present state reports so and changes nothing.
pub fn insert_visited(all_games: &mut Vec<Game>, g: &Game) -> (fresh: bool)
    ensures
        fresh == !visited_contains(old(all_games)@, *g),
        !fresh ==> final(all_games)@ == old(all_games)@,
        fresh ==> final(all_games)@.len() == old(all_games)@.len() + 1 && game_eq(
            final(all_games)@.last(),
            *g,
        ),
        forall|i: int|
            0 <= i < old(all_games)@.len() ==> final(all_games)@[i] == old(all_games)@[i],
        visited_contains(final(all_games)@, *g),
{
    let mut i: usize = 0;
    while i < all_games.len()
        invariant
            i <= all_games@.len(),
            all_games@ == old(all_games)@,
            forall|j: int| 0 <= j < i ==> !game_eq(all_games@[j], *g),
        decreases all_games@.len() - i,
    {
        if games_equal(&all_games[i], g) {
            return false;
        }
        i += 1;
    }
    all_games.push(clone_game(g));
    true
}

/// True when a candidate beats the best seen so far: any candidate beats
/// none, and otherwise strictly fewer held tiles win; ties keep the first
/// found.
pub open spec fn is_better(candidate: Game, best: Option<Game>) -> bool {
    match best {
        Option::None => true,
        Option::Some(b) => hand_len(candidate) < hand_len(b),
    }
}

/// Folds one candidate into the tracked best: the candidate replaces the
/// best exactly when it is better. The tracked best's hand size never
/// increases under this fold.
pub fn check_if_game_best(potential_best: &Game, best_game: &mut Option<Game>)
    ensures
        is_better(*potential_best, *old(best_game)) ==> (*final(best_game) matches Some(nb)
            && game_eq(nb, *potential_best)),
        !is_better(*potential_best, *old(best_game)) ==> *final(best_game) == *old(best_game),
        *old(best_game) matches Some(ob) ==> (*final(best_game) matches Some(nb) && hand_len(nb)
            <= hand_len(ob)),
        *final(best_game) is Some,
        *final(best_game) matches Some(nb) ==> (game_eq(nb, *potential_best) || (*old(
            best_game,
        ) matches Some(ob) && nb == ob)),
{
    let replace: bool = if best_game.is_none() {
        true
    } else {
        potential_best.player_tiles_length() < best_game.as_ref().unwrap().player_tiles_length()
    };
    if replace {
        let fresh = clone_game(potential_best);
        proof {
            lemma_game_eq_congruence(fresh, *potential_best);
        }
        *best_game = Some(fresh);
    }
}

/// The recursive search: records the state, stops on a revisit or at depth
/// zero, and otherwise folds every successor and every recursive result
/// into the best candidate. A state visited anywhere in the search is never
/// expanded again.
pub fn find_best_game(current_game: &Game, depth: usize, all_games: &mut Vec<Game>) -> (best:
    Option<Game>)
    requires
        game_valid(*current_game),
    ensures
        visited_contains(old(all_games)@, *current_game) ==> best is None && final(all_games)@
            == old(all_games)@,
        !visited_contains(old(all_games)@, *current_game) && depth == 0 ==> (best matches Some(b)
            && game_eq(b, *current_game)),
        !visited_contains(old(all_games)@, *current_game) && depth > 0 ==> (best is Some
            <==> legal_move_total(*current_game) > 0),
        (!visited_contains(old(all_games)@, *current_game) && depth > 0 && best is Some)
            ==> forall|j: int|
            0 <= j < legal_move_total(*current_game) ==> hand_len(best->Some_0)
                <= successor_hand_len(*current_game, j),
        best matches Some(b) ==> game_valid(b) && game_tile_count(b) == game_tile_count(
            *current_game,
        ),
        final(all_games)@.len() >= old(all_games)@.len(),
        forall|i: int|
            0 <= i < old(all_games)@.len() ==> final(all_games)@[i] == old(all_games)@[i],
        visited_contains(final(all_games)@, *current_game),
    decreases depth,
{
    if !insert_visited(all_games, current_game) {
        return None;
    }
    if depth == 0 {
        let answer = clone_game(current_game);
        proof {
            lemma_game_eq_congruence(answer, *current_game);
        }
        return Some(answer);
    }
    let ghost snap = all_games@;
    let legal_moves = current_game.get_legal_moves();
    let mut best_game: Option<Game> = None;
    let mut gi: usize = 0;
    while gi < legal_moves.len()
        invariant
            gi <= legal_moves@.len(),
            depth >= 1,
            game_valid(*current_game),
            forall|j: int|
                0 <= j < legal_moves@.len() ==> game_valid(#[trigger] legal_moves@[j])
                    && game_tile_count(legal_moves@[j]) == game_tile_count(*current_game),
            best_game matches Some(b) ==> game_valid(b) && game_tile_count(b)
                == game_tile_count(*current_game),
            gi > 0 ==> best_game is Some,
            gi == 0 ==> best_game is None,
            forall|j: int|
                0 <= j < gi ==> hand_len(best_game->Some_0) <= hand_len(
                    #[trigger] legal_moves@[j],
                ),
            all_games@.len() >= snap.len(),
            forall|i: int| 0 <= i < snap.len() ==> all_games@[i] == snap[i],
        decreases legal_moves@.len() - gi,
    {
        let next_game = &legal_moves[gi];
        check_if_game_best(next_game, &mut best_game);
        proof {
            if game_eq(best_game->Some_0, *next_game) {
                lemma_game_eq_congruence(best_game->Some_0, *next_game);
            }
        }
        let potential_best = find_best_game(next_game, depth - 1, all_games);
        if let Some(pb) = potential_best {
            check_if_game_best(&pb, &mut best_game);
            proof {
                if game_eq(best_game->Some_0, pb) {
                    lemma_game_eq_congruence(best_game->Some_0, pb);
                }
            }
        }
        gi += 1;
    }
    proof {
        assert(legal_moves@.len() == legal_move_total(*current_game));
        let w = choose|i: int| 0 <= i < snap.len() && game_eq(snap[i], *current_game);
        assert(all_games@[w] == snap[w]);
        assert(visited_contains(all_games@, *current_game));
        lemma_successor_hand_lens(*current_game, legal_moves@);
        if best_game is Some {
            assert forall|j: int| 0 <= j < legal_move_total(*current_game) implies hand_len(
                best_game->Some_0,
            ) <= successor_hand_len(*current_game, j) by {
                assert(hand_len(best_game->Some_0) <= hand_len(legal_moves@[j]));
                assert(hand_len(legal_moves@[j]) == successor_hand_len(*current_game, j));
            }
        }
    }
    best_game
}

/// Searches from the given state to the fixed depth bound with a fresh
/// visited set and hands back the best state found, or nothing when the
/// state offers no legal move at all.
pub fn find_best_game_brute_force(game: &Game) -> (best: Option<Game>)
    requires
        game_valid(*game),
    ensures
        best is Some <==> legal_move_total(*game) > 0,
        best matches Some(b) ==> game_valid(b) && game_tile_count(b) == game_tile_count(*game),
        best is Some ==> forall|j: int|
            0 <= j < legal_move_total(*game) ==> hand_len(best->Some_0) <= successor_hand_len(
                *game,
                j,
            ),
{
    let mut all_games: Vec<Game> = Vec::new();
    find_best_game(game, DEPTH, &mut all_games)
}

} // verus!
