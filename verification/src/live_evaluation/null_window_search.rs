//! Alpha-beta search with a null window (`beta == alpha + 1`), in negamax form.
use vstd::prelude::*;
use crate::bits::{bit, group_bits};
use crate::board::Position;
use crate::board::key_methods::lemma_key_injective;
use crate::board::min_max_methods::{
    child_entries,
    child_of,
    holds_child,
    is_safe_child,
    lemma_child_alternating,
    lemma_child_entries,
    lemma_child_exists,
    lemma_child_wins_next,
    lemma_children_of_safe_moves,
};
use crate::live_evaluation::exact_score::{
    exact_score,
    lemma_all_moves_lose_score,
    lemma_alternating_score_range,
    lemma_reply_bounds_score,
    lemma_safe_replies_bound_score,
    lemma_search_window,
};
use crate::live_evaluation::mtd::MAX_MOVES_PLAYED;
use crate::live_evaluation::transposition_table::{
    TableKey,
    TableResult,
    TranspositionTable,
    STORED_LOWER_BOUND_OFFSET,
    STORED_UPPER_BOUND_OFFSET,
    TABLE_SIZE,
    bound_holds,
    byte_of,
    decode,
    lemma_stored_lower_bound_holds,
    lemma_lookup_range,
    lemma_stored_upper_bound_holds,
    lemma_table_index_in_range,
    lemma_table_key_injective,
    table_key_of,
};

verus! {

broadcast use group_bits;

/// A position of a game: well-formed, and reached by players taking turns.
pub open spec fn game_position(q: Position) -> bool {
    q.wf() && q.alternating()
}

/// A position of the kind the search scores exactly: a position of a game
/// without a win for the player to move on the next stone.
pub open spec fn searched_position(q: Position) -> bool {
    game_position(q) && !q.wins_next()
}

/// Every bound that the table answers for the key of a position of a game holds
/// of its exact score.
pub open spec fn bounds_hold(table: TranspositionTable) -> bool {
    forall|q: Position| #[trigger]
        game_position(q) ==> bound_holds(table.lookup(table_key_of(q.key() as u64)), exact_score(q))
}

/// `q` can come later than `p` in a game: no fewer moves, every stone of `p`
/// still in place, and owned by the player to move in `q` exactly when it was
/// owned by the player to move in `p` and an even number of moves came between.
pub open spec fn follows(p: Position, q: Position) -> bool {
    &&& p.moves_played <= q.moves_played
    &&& forall|j: int| #[trigger]
        bit(p.both_players_mask, j) ==> bit(q.both_players_mask, j) && (bit(q.current_player_stones, j) == (bit(
            p.current_player_stones,
            j,
        ) == ((q.moves_played - p.moves_played) % 2 == 0)))
}

/// Each slot of `after` either holds what it held in `before`, or holds, under
/// its truncated key, the table key of a well-formed position that can follow `root`.
pub open spec fn written_below(before: TranspositionTable, after: TranspositionTable, root: Position) -> bool {
    forall|i: int|
        0 <= i < TABLE_SIZE ==> (after.stored_key(i) == before.stored_key(i) && after.stored_value(i)
            == before.stored_value(i)) || exists|q: Position| #[trigger]
            follows(root, q) && q.wf() && table_key_of(q.key() as u64) == (TableKey {
                table_index: i as u32,
                truncated_key: after.stored_key(i),
            })
}

/// The counter `after` is `before` plus `n`, modulo `2^64`.
pub open spec fn counted(before: u64, after: u64, n: int) -> bool {
    after == (before + n) % 0x1_0000_0000_0000_0000
}

/// Every move of the player to move lets the other player win at once.
pub open spec fn all_moves_lose(p: Position) -> bool {
    forall|c: int| !#[trigger] p.is_non_losing_move(c)
}

/// A null window search: an alpha-beta search (negamax variant) where `beta == alpha + 1`.
pub struct NullWindowSearch<'a> {
    pub transposition_table: &'a mut TranspositionTable,
    pub node_count: &'a mut u64,
}

impl NullWindowSearch<'_> {
    /// Scores a position against `alpha` with alpha-beta and a null window,
    /// reading and storing score bounds in the table.
    ///
    /// # Assumptions:
    /// - The current player cannot simply win in one move
    /// - For the return values (`searched_position`): the players took turns
    ///
    /// # Return Values, with `exact_score` the actual score:
    ///  - if `actual_score <= alpha`, then `actual_score <= return_value <= alpha`
    ///  - if `actual_score > alpha`, then `alpha < return_value <= actual score`
    pub fn search(&mut self, position: Position, alpha: i8) -> (score: i8)
        requires
            position.wf(),
            position.alternating() ==> !position.wins_next(),
            old(self).transposition_table.wf(),
            bounds_hold(*old(self).transposition_table),
        ensures
            *final(final(self).transposition_table) == *final(old(self).transposition_table),
            *final(final(self).node_count) == *final(old(self).node_count),
            final(self).transposition_table.wf(),
            bounds_hold(*final(self).transposition_table),
            written_below(*old(self).transposition_table, *final(self).transposition_table, position),
            exists|n: int| n >= 1 && #[trigger] counted(*old(self).node_count, *final(self).node_count, n),
            all_moves_lose(position) ==> score == -((42 - position.moves_played) / 2)
                && *final(self).transposition_table == *old(self).transposition_table
                && counted(*old(self).node_count, *final(self).node_count, 1),
            -21 <= score <= 71,
            position.moves_played >= 1 ==> -20 <= score,
            searched_position(position) && exact_score(position) <= alpha ==> exact_score(position) <= score
                <= alpha,
            searched_position(position) && exact_score(position) > alpha ==> alpha < score <= exact_score(
                position,
            ),
        decreases 42 - position.moves_played,
    {
        let ghost table_at_start = *self.transposition_table;
        let ghost count_at_start = *self.node_count;
        *self.node_count = self.node_count.wrapping_add(1);
        proof {
            assert(counted(count_at_start, *self.node_count, 1));
            lemma_follows_itself(position);
        }
        let ghost searched = searched_position(position);
        proof {
            crate::board::lemma_wf_facts(position);
            if searched {
                lemma_alternating_score_range(position);
            }
        }
        if position.all_moves_immediately_lose() {
            // Uses the assumption that the current player cannot win in one move
            // In this scenario the current player plays and then the opponent wins
            proof {
                if searched {
                    lemma_all_moves_lose_score(position);
                }
            }
            return -(MAX_MOVES_PLAYED - position.moves_played as i8) / 2;
        }
        let ghost safe_move = choose|c: int| #[trigger] position.is_non_losing_move(c);
        proof {
            if searched {
                lemma_search_window(position, safe_move);
            }
        }
        // We also know that we cannot win on this move (assumption)
        // So best case is current, opponent, current wins
        let mut max = (MAX_MOVES_PLAYED - 1 - position.moves_played as i8) / 2;

        // Didn't return early, so we can prevent an opponent connect 4 on the next move
        // So worse case is current, opponent, current, opponent wins
        let mut min = -(MAX_MOVES_PLAYED - 2 - position.moves_played as i8) / 2;

        // Use the transposition table to get potentially tighter bounds
        let key = position.get_key();
        let table_key = TableKey::from(key);
        proof {
            lemma_table_index_in_range(key);
            assert(table_key == table_key_of(key));
            lemma_lookup_range(*self.transposition_table, table_key);
            if searched {
                assert(game_position(position));
                assert(bound_holds(self.transposition_table.lookup(table_key), exact_score(position)));
            }
        }
        match self.transposition_table.get(table_key) {
            TableResult::Miss => {},
            TableResult::LowerBound(lower_bound) => {
                if lower_bound > min {
                    min = lower_bound
                }
            },
            TableResult::UpperBound(upper_bound) => {
                if upper_bound < max {
                    max = upper_bound
                }
            },
        }
        if alpha >= max {
            return max;
        }
        if alpha < min {
            return min;
        }
        // The recursive cases

        let mut children = position.get_non_losing_child_positions();
        let ghost entries = child_entries(position, 7);
        proof {
            lemma_child_entries(position, 7);
            lemma_children_of_safe_moves(position);
            assert(children@ =~= entries.subrange(0, entries.len() as int));
        }
        while children.len() > 0
            invariant
                *final(self.transposition_table) == *final(old(self).transposition_table),
                *final(self.node_count) == *final(old(self).node_count),
                self.transposition_table.wf(),
                bounds_hold(*self.transposition_table),
                table_at_start == *old(self).transposition_table,
                count_at_start == *old(self).node_count,
                written_below(table_at_start, *self.transposition_table, position),
                exists|n: int| n >= 1 && #[trigger] counted(count_at_start, *self.node_count, n),
                table_key == table_key_of(position.key() as u64),
                table_key.table_index < TABLE_SIZE,
                position.wf(),
                -20 <= alpha <= 19,
                searched == searched_position(position),
                position.alternating() ==> !position.wins_next(),
                entries == child_entries(position, 7),
                children@.len() <= entries.len(),
                children@ == entries.subrange(0, children@.len() as int),
                forall|i: int| 0 <= i < entries.len() ==> (#[trigger] entries[i]).child_position.wf()
                    && entries[i].child_position.moves_played == position.moves_played + 1,
                forall|i: int| 0 <= i < entries.len() ==> is_safe_child(position, (#[trigger] entries[i]).child_position),
                position.moves_played < 42 || entries.len() == 0,
                searched ==> -18 <= exact_score(position) <= 18,
                searched ==> forall|i: int|
                    children@.len() <= i < entries.len() ==> -exact_score((#[trigger] entries[i]).child_position)
                        <= alpha,
            decreases children@.len(),
        {
            let ghost k = children@.len() - 1;
            let child_position = children.next().unwrap();
            proof {
                assert(child_position == entries[k].child_position);
                let c = choose|c: int| #[trigger] position.is_non_losing_move(c) && child_position == child_of(position, c);
                lemma_child_exists(position, c);
                lemma_child_wins_next(position, c);
                lemma_child_alternating(position, c);
                if searched {
                    lemma_reply_bounds_score(position, c);
                    assert(searched_position(child_position));
                }
            }
            let ghost table_before_child = *self.transposition_table;
            let ghost count_before_child = *self.node_count;
            let score = -self.search(child_position, -(alpha + 1));
            proof {
                lemma_child_follows(position, child_position);
                lemma_written_below_root(table_before_child, *self.transposition_table, position, child_position);
                lemma_written_below_chain(table_at_start, table_before_child, *self.transposition_table, position);
                lemma_counted_chain(count_at_start, count_before_child, *self.node_count);
            }
            // Pruning case
            if score > alpha {
                let ghost before = *self.transposition_table;
                self.transposition_table.put_lower_bound(table_key, score);
                proof {
                    lemma_put_written_below(before, *self.transposition_table, position);
                    lemma_written_below_chain(table_at_start, before, *self.transposition_table, position);
                    if searched {
                        lemma_stored_lower_bound_holds(score as int, exact_score(position));
                    }
                    lemma_put_keeps_bounds_hold(
                        before,
                        *self.transposition_table,
                        position,
                        byte_of(score + STORED_LOWER_BOUND_OFFSET),
                    );
                    let n = choose|n: int| n >= 1 && #[trigger] counted(count_at_start, *self.node_count, n);
                    assert(counted(*old(self).node_count, *self.node_count, n));
                }
                return score;
            }
        }
        // Non-pruning case

        let ghost before = *self.transposition_table;
        self.transposition_table.put_upper_bound(table_key, alpha);
        proof {
            lemma_put_written_below(before, *self.transposition_table, position);
            lemma_written_below_chain(table_at_start, before, *self.transposition_table, position);
            if searched {
                assert forall|c: int| #[trigger] position.is_non_losing_move(c) implies -exact_score(
                    child_of(position, c),
                ) <= alpha by {
                    assert(holds_child(entries, child_of(position, c)));
                }
                lemma_safe_replies_bound_score(position, safe_move, alpha as int);
                lemma_stored_upper_bound_holds(alpha as int, exact_score(position));
            }
            lemma_put_keeps_bounds_hold(
                before,
                *self.transposition_table,
                position,
                byte_of(alpha + STORED_UPPER_BOUND_OFFSET),
            );
            let n = choose|n: int| n >= 1 && #[trigger] counted(count_at_start, *self.node_count, n);
            assert(counted(*old(self).node_count, *self.node_count, n));
        }
        alpha
    }
}

/// A position can follow itself.
proof fn lemma_follows_itself(p: Position)
    ensures
        follows(p, p),
{
}

/// The position after a non-losing move can follow the position before it.
proof fn lemma_child_follows(p: Position, q: Position)
    requires
        p.wf(),
        is_safe_child(p, q),
    ensures
        follows(p, q),
{
    let c = choose|c: int| #[trigger] p.is_non_losing_move(c) && q == child_of(p, c);
    lemma_child_exists(p, c);
    crate::board::lemma_wf_facts(p);
    assert forall|j: int| #[trigger] bit(p.both_players_mask, j) implies bit(q.both_players_mask, j) && (bit(
        q.current_player_stones,
        j,
    ) == (bit(p.current_player_stones, j) == ((q.moves_played - p.moves_played) % 2 == 0))) by {}
}

/// What can follow a position that can follow `root` can follow `root`.
proof fn lemma_follows_chain(root: Position, p: Position, q: Position)
    requires
        follows(root, p),
        follows(p, q),
    ensures
        follows(root, q),
{
    assert forall|j: int| #[trigger] bit(root.both_players_mask, j) implies bit(q.both_players_mask, j) && (bit(
        q.current_player_stones,
        j,
    ) == (bit(root.current_player_stones, j) == ((q.moves_played - root.moves_played) % 2 == 0))) by {
        assert(bit(p.both_players_mask, j));
    }
}

/// Writes below a position that can follow `root` are writes below `root`.
proof fn lemma_written_below_root(
    before: TranspositionTable,
    after: TranspositionTable,
    root: Position,
    p: Position,
)
    requires
        follows(root, p),
        written_below(before, after, p),
    ensures
        written_below(before, after, root),
{
    assert forall|i: int| 0 <= i < TABLE_SIZE implies (after.stored_key(i) == before.stored_key(i)
        && after.stored_value(i) == before.stored_value(i)) || exists|q: Position| #[trigger]
        follows(root, q) && q.wf() && table_key_of(q.key() as u64) == (TableKey {
            table_index: i as u32,
            truncated_key: after.stored_key(i),
        }) by {
        if !(after.stored_key(i) == before.stored_key(i) && after.stored_value(i) == before.stored_value(i)) {
            let q = choose|q: Position| #[trigger]
                follows(p, q) && q.wf() && table_key_of(q.key() as u64) == (TableKey {
                    table_index: i as u32,
                    truncated_key: after.stored_key(i),
                });
            lemma_follows_chain(root, p, q);
        }
    }
}

/// Writes below `root` in two steps are writes below `root`.
proof fn lemma_written_below_chain(
    a: TranspositionTable,
    b: TranspositionTable,
    c: TranspositionTable,
    root: Position,
)
    requires
        written_below(a, b, root),
        written_below(b, c, root),
    ensures
        written_below(a, c, root),
{
    assert forall|i: int| 0 <= i < TABLE_SIZE implies (c.stored_key(i) == a.stored_key(i) && c.stored_value(i)
        == a.stored_value(i)) || exists|q: Position| #[trigger]
        follows(root, q) && q.wf() && table_key_of(q.key() as u64) == (TableKey {
            table_index: i as u32,
            truncated_key: c.stored_key(i),
        }) by {
        if c.stored_key(i) == b.stored_key(i) && c.stored_value(i) == b.stored_value(i) {
            if !(b.stored_key(i) == a.stored_key(i) && b.stored_value(i) == a.stored_value(i)) {
                let q = choose|q: Position| #[trigger]
                    follows(root, q) && q.wf() && table_key_of(q.key() as u64) == (TableKey {
                        table_index: i as u32,
                        truncated_key: b.stored_key(i),
                    });
            }
        }
    }
}

/// Storing in the slot of a position's key, under its truncated key, is a write below it.
proof fn lemma_put_written_below(before: TranspositionTable, after: TranspositionTable, p: Position)
    requires
        p.wf(),
        before.stored(
            after,
            table_key_of(p.key() as u64).table_index as int,
            table_key_of(p.key() as u64).truncated_key,
            after.stored_value(table_key_of(p.key() as u64).table_index as int),
        ),
    ensures
        written_below(before, after, p),
{
    lemma_follows_itself(p);
    lemma_table_index_in_range(p.key() as u64);
    let i0 = table_key_of(p.key() as u64).table_index as int;
    assert forall|i: int| 0 <= i < TABLE_SIZE implies (after.stored_key(i) == before.stored_key(i)
        && after.stored_value(i) == before.stored_value(i)) || exists|q: Position| #[trigger]
        follows(p, q) && q.wf() && table_key_of(q.key() as u64) == (TableKey {
            table_index: i as u32,
            truncated_key: after.stored_key(i),
        }) by {
        if i == i0 {
            assert(follows(p, p) && p.wf() && table_key_of(p.key() as u64) == (TableKey {
                table_index: i as u32,
                truncated_key: after.stored_key(i),
            }));
        }
    }
}

/// Counting `n1` and then `n2` is counting `n1 + n2`.
proof fn lemma_counted_chain(a: u64, b: u64, c: u64)
    requires
        exists|n: int| n >= 1 && #[trigger] counted(a, b, n),
        exists|n: int| n >= 1 && #[trigger] counted(b, c, n),
    ensures
        exists|n: int| n >= 1 && #[trigger] counted(a, c, n),
{
    let n1 = choose|n: int| n >= 1 && #[trigger] counted(a, b, n);
    let n2 = choose|n: int| n >= 1 && #[trigger] counted(b, c, n);
    vstd::arithmetic::div_mod::lemma_add_mod_noop(a + n1, n2, 0x1_0000_0000_0000_0000);
    vstd::arithmetic::div_mod::lemma_add_mod_noop(b as int, n2, 0x1_0000_0000_0000_0000);
    vstd::arithmetic::div_mod::lemma_mod_twice(a + n1, 0x1_0000_0000_0000_0000);
    assert(counted(a, c, n1 + n2));
}

/// Storing, in the slot of a position's key, a value that reads back as a bound
/// of that position's exact score keeps every bound holding: no other position
/// of the kind the search scores has the same slot and low key bits.
proof fn lemma_put_keeps_bounds_hold(before: TranspositionTable, after: TranspositionTable, p: Position, value: u8)
    requires
        bounds_hold(before),
        p.wf(),
        before.stored(
            after,
            table_key_of(p.key() as u64).table_index as int,
            table_key_of(p.key() as u64).truncated_key,
            value,
        ),
        game_position(p) ==> bound_holds(decode(value), exact_score(p)),
    ensures
        bounds_hold(after),
{
    crate::board::lemma_wf_facts(p);
    let kp = table_key_of(p.key() as u64);
    assert forall|q: Position| #[trigger] game_position(q) implies bound_holds(
        after.lookup(table_key_of(q.key() as u64)),
        exact_score(q),
    ) by {
        crate::board::lemma_wf_facts(q);
        let kq = table_key_of(q.key() as u64);
        lemma_table_index_in_range(q.key() as u64);
        if kq.table_index == kp.table_index {
            if kq.truncated_key == kp.truncated_key {
                lemma_table_key_injective(q.key() as u64, p.key() as u64);
                lemma_key_injective(q, p);
            }
        } else {
            assert(after.lookup(kq) == before.lookup(kq));
        }
    }
}

} // verus!
