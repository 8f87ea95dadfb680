//! The exact score of a position under perfect play, and the facts about it
//! that the search relies on.
use vstd::prelude::*;
use crate::board::{lemma_wf_facts, Position};
use crate::board::min_max_methods::{
    child_of,
    lemma_child_alternating,
    lemma_child_exists,
    lemma_child_wins_next,
    lemma_some_column_open,
    lemma_wins_needs_three,
};

verus! {

/// The score of a position when both players play perfectly, for the player to
/// move (negamax). A full board is a draw, 0. A player who can complete four with
/// the next stone wins, and scores `(43 - moves_played) / 2`: the earlier the
/// win, the higher. Otherwise the score is the best, over the open columns, of
/// minus the score of the position after a stone there.
pub open spec fn exact_score(p: Position) -> int
    decreases 42 - p.moves_played, 8int,
{
    if p.moves_played >= 42 {
        0
    } else if p.wins_next() {
        (43 - p.moves_played) / 2
    } else {
        best_reply_from(p, 0)
    }
}

/// The best, over the open columns from `c` on, of minus the exact score of the
/// position after a stone there; -22, below every score, when none is open.
pub open spec fn best_reply_from(p: Position, c: int) -> int
    decreases 42 - p.moves_played, 7 - c,
{
    if p.moves_played >= 42 || c < 0 || c >= 7 {
        -22
    } else {
        let rest = best_reply_from(p, c + 1);
        if p.height(c) < 6 {
            let reply = -exact_score(child_of(p, c));
            if reply > rest {
                reply
            } else {
                rest
            }
        } else {
            rest
        }
    }
}

/// The best reply from column `c` on is at least the reply of each open column from `c` on.
proof fn lemma_best_at_least(p: Position, c: int, k: int)
    requires
        p.moves_played < 42,
        0 <= c <= k < 7,
        p.height(k) < 6,
    ensures
        best_reply_from(p, c) >= -exact_score(child_of(p, k)),
    decreases k - c,
{
    if c < k {
        lemma_best_at_least(p, c + 1, k);
    }
}

/// The best reply from column `c` on is at most any bound of the replies of the
/// open columns from `c` on (that is not below -22).
proof fn lemma_best_at_most(p: Position, c: int, a: int)
    requires
        p.moves_played < 42,
        0 <= c <= 7,
        a >= -22,
        forall|k: int| c <= k < 7 && p.height(k) < 6 ==> -exact_score(#[trigger] child_of(p, k)) <= a,
    ensures
        best_reply_from(p, c) <= a,
    decreases 7 - c,
{
    if c < 7 {
        lemma_best_at_most(p, c + 1, a);
    }
}

/// Without a win on the next stone, the exact score is at least minus the
/// score after each open column.
pub proof fn lemma_reply_bounds_score(p: Position, k: int)
    requires
        p.moves_played < 42,
        !p.wins_next(),
        0 <= k < 7,
        p.height(k) < 6,
    ensures
        exact_score(p) >= -exact_score(child_of(p, k)),
{
    lemma_best_at_least(p, 0, k);
}

/// The exact score lies between a loss to the other player's next stone and a
/// win with one's own next stone; without a win on the next stone, it is at
/// most a win with the stone after.
pub proof fn lemma_exact_score_range(p: Position)
    requires
        p.wf(),
    ensures
        -((42 - p.moves_played) / 2) <= exact_score(p) <= (43 - p.moves_played) / 2,
        p.moves_played < 42 && !p.wins_next() ==> exact_score(p) <= (41 - p.moves_played) / 2,
    decreases 42 - p.moves_played,
{
    lemma_wf_facts(p);
    let m = p.moves_played;
    if m < 42 && !p.wins_next() {
        assert forall|k: int| 0 <= k < 7 && p.height(k) < 6 implies -exact_score(#[trigger] child_of(p, k)) <= (41
            - m) / 2 by {
            lemma_child_exists(p, k);
            lemma_exact_score_range(child_of(p, k));
        }
        lemma_best_at_most(p, 0, (41 - m) / 2);
        let k0 = lemma_some_column_open(p);
        lemma_child_exists(p, k0);
        lemma_exact_score_range(child_of(p, k0));
        lemma_best_at_least(p, 0, k0);
    }
}

/// In a game where the players took turns, the exact score lies from -18 to 18:
/// no one completes four before their fourth stone.
pub proof fn lemma_alternating_score_range(p: Position)
    requires
        p.wf(),
        p.alternating(),
    ensures
        -18 <= exact_score(p) <= 18,
    decreases 42 - p.moves_played,
{
    lemma_wf_facts(p);
    let m = p.moves_played;
    if m < 42 {
        if p.wins_next() {
            lemma_wins_needs_three(p);
        } else {
            assert forall|k: int| 0 <= k < 7 && p.height(k) < 6 implies -18 <= -exact_score(
                #[trigger] child_of(p, k),
            ) <= 18 by {
                lemma_child_exists(p, k);
                lemma_child_alternating(p, k);
                lemma_alternating_score_range(child_of(p, k));
            }
            lemma_best_at_most(p, 0, 18);
            let k0 = lemma_some_column_open(p);
            lemma_best_at_least(p, 0, k0);
        }
    }
}

/// When every move lets the other player win at once, the player to move loses
/// to the other player's next stone.
pub proof fn lemma_all_moves_lose_score(p: Position)
    requires
        p.wf(),
        !p.wins_next(),
        forall|c: int| !#[trigger] p.is_non_losing_move(c),
    ensures
        exact_score(p) == -((42 - p.moves_played) / 2),
{
    lemma_wf_facts(p);
    let m = p.moves_played;
    if m < 42 {
        assert forall|k: int| 0 <= k < 7 && p.height(k) < 6 implies -exact_score(#[trigger] child_of(p, k)) == -((42
            - m) / 2) by {
            lemma_child_exists(p, k);
            lemma_child_wins_next(p, k);
            assert(!p.is_non_losing_move(k));
        }
        lemma_best_at_most(p, 0, -((42 - m) / 2));
        let k0 = lemma_some_column_open(p);
        lemma_best_at_least(p, 0, k0);
    }
}

/// Where some move is non-losing and no win comes with the next stone, the
/// exact score lies between a loss to the other player's stone after next and
/// a win with one's own stone after next.
pub proof fn lemma_search_window(p: Position, c: int)
    requires
        p.wf(),
        !p.wins_next(),
        p.is_non_losing_move(c),
    ensures
        p.moves_played < 42,
        exact_score(p) <= (41 - p.moves_played) / 2,
        p.moves_played <= 40 ==> exact_score(p) >= -((40 - p.moves_played) / 2),
        p.moves_played == 41 ==> exact_score(p) >= 0,
{
    lemma_child_exists(p, c);
    lemma_child_wins_next(p, c);
    lemma_exact_score_range(p);
    lemma_exact_score_range(child_of(p, c));
    lemma_reply_bounds_score(p, c);
}

/// Where some move is non-losing and no win comes with the next stone, a bound
/// on minus the score after every non-losing move bounds the exact score.
pub proof fn lemma_safe_replies_bound_score(p: Position, c0: int, a: int)
    requires
        p.wf(),
        !p.wins_next(),
        p.is_non_losing_move(c0),
        forall|c: int| #[trigger] p.is_non_losing_move(c) ==> -exact_score(child_of(p, c)) <= a,
    ensures
        exact_score(p) <= a,
{
    lemma_wf_facts(p);
    let m = p.moves_played;
    lemma_child_exists(p, c0);
    lemma_exact_score_range(child_of(p, c0));
    assert(-exact_score(child_of(p, c0)) <= a);
    assert forall|k: int| 0 <= k < 7 && p.height(k) < 6 implies -exact_score(#[trigger] child_of(p, k)) <= a by {
        if !p.is_non_losing_move(k) {
            lemma_child_exists(p, k);
            lemma_child_wins_next(p, k);
        }
    }
    lemma_best_at_most(p, 0, a);
}

} // verus!
