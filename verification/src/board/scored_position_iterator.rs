//! Child positions sorted by score, highest first; ties come out last-added first.
use vstd::prelude::*;
use crate::board::Position;

verus! {

/// The columns from the middle outwards, alternating right and left.
pub const INSIDE_OUT_COLUMN_ORDER: [u8; 7] = [3, 2, 4, 1, 5, 0, 6];

/// The columns from the outside inwards: `INSIDE_OUT_COLUMN_ORDER` reversed.
///
/// Adding children in this order makes ties come out in `INSIDE_OUT_COLUMN_ORDER`.
pub const OUTSIDE_IN_COLUMN_ORDER: [u8; 7] = [6, 0, 5, 1, 4, 2, 3];

/// A child position with its score.
#[derive(Clone, Copy)]
pub struct ScoredEntry {
    pub child_position: Position,
    pub score: u8,
}

/// The entries are in order of score, lowest first.
pub open spec fn sorted_by_score(s: Seq<ScoredEntry>) -> bool {
    forall|i: int, k: int| 0 <= i < k < s.len() ==> #[trigger] s[i].score <= #[trigger] s[k].score
}

/// Where an entry with score `score` goes: just after the last entry whose score
/// is not bigger.
pub open spec fn insert_index(s: Seq<ScoredEntry>, score: u8) -> int
    decreases s.len(),
{
    if s.len() == 0 {
        0
    } else if s.last().score > score {
        insert_index(s.drop_last(), score)
    } else {
        s.len() as int
    }
}

/// `s` with `entry` added at its place.
pub open spec fn insert_scored(s: Seq<ScoredEntry>, entry: ScoredEntry) -> Seq<ScoredEntry> {
    s.insert(insert_index(s, entry.score), entry)
}

/// Hands out child positions by decreasing score; of equal scores, the one added
/// last comes out first. It holds at most `GAME_WIDTH` entries.
pub struct ScoredPositionIterator {
    entries: Vec<ScoredEntry>,
}

impl View for ScoredPositionIterator {
    type V = Seq<ScoredEntry>;

    /// The entries, lowest score first: the next to come out is the last.
    closed spec fn view(&self) -> Seq<ScoredEntry> {
        self.entries@
    }
}

impl ScoredPositionIterator {
    /// An iterator with no entries.
    pub fn new() -> (it: Self)
        ensures
            it@ == Seq::<ScoredEntry>::empty(),
    {
        Self { entries: Vec::new() }
    }

    /// Number of entries left.
    pub fn len(&self) -> (n: usize)
        ensures
            n == self@.len(),
    {
        self.entries.len()
    }

    /// Adds a child position with its score, after every entry whose score is not bigger.
    pub fn add(&mut self, child_position: Position, score: u8)
        requires
            old(self)@.len() < 7,
        ensures
            final(self)@ == insert_scored(old(self)@, ScoredEntry { child_position, score }),
    {
        // The index we are looking at (initially, the first empty index)
        let mut vacant_index = self.entries.len();
        let ghost s = self.entries@;
        proof {
            assert(s.subrange(0, s.len() as int) =~= s);
        }
        // As long as the previous entry is strictly bigger, move left past it
        while vacant_index != 0 && self.entries[vacant_index - 1].score > score
            invariant
                self.entries@ == s,
                vacant_index <= s.len(),
                insert_index(s, score) == insert_index(s.subrange(0, vacant_index as int), score),
            decreases vacant_index,
        {
            proof {
                let t = s.subrange(0, vacant_index as int);
                assert(t.drop_last() =~= s.subrange(0, vacant_index - 1));
            }
            vacant_index -= 1;
        }
        // Place our entry at the now empty spot
        self.entries.insert(vacant_index, ScoredEntry { child_position, score });
    }

    /// Takes out the entry with the highest score (the last added of equal ones).
    pub fn next(&mut self) -> (child: Option<Position>)
        ensures
            old(self)@.len() == 0 ==> child is None && final(self)@ == old(self)@,
            old(self)@.len() > 0 ==> child == Some(old(self)@.last().child_position) && final(self)@
                == old(self)@.drop_last(),
    {
        match self.entries.pop() {
            None => None,
            Some(entry) => Some(entry.child_position),
        }
    }

    /// Takes out every entry, in the order `next` gives them.
    pub fn collect_positions(&mut self) -> (children: Vec<Position>)
        ensures
            final(self)@.len() == 0,
            children@.len() == old(self)@.len(),
            forall|i: int| 0 <= i < children@.len() ==> #[trigger] children@[i] == old(self)@[old(
                self,
            )@.len() - 1 - i].child_position,
    {
        let mut children: Vec<Position> = Vec::new();
        let ghost s = self.entries@;
        while self.entries.len() > 0
            invariant
                self.entries@ == s.subrange(0, s.len() - children@.len()),
                children@.len() <= s.len(),
                forall|i: int| 0 <= i < children@.len() ==> #[trigger] children@[i] == s[s.len() - 1
                    - i].child_position,
            decreases self.entries@.len(),
        {
            let entry = self.entries.pop().unwrap();
            children.push(entry.child_position);
        }
        children
    }
}

/// The place of a new entry is within the entries, so adding one makes one more.
pub proof fn lemma_insert_index_range(s: Seq<ScoredEntry>, score: u8)
    ensures
        0 <= insert_index(s, score) <= s.len(),
    decreases s.len(),
{
    if s.len() > 0 {
        lemma_insert_index_range(s.drop_last(), score);
    }
}

/// Adding an entry keeps the entries sorted.
pub proof fn lemma_insert_keeps_sorted(s: Seq<ScoredEntry>, entry: ScoredEntry)
    requires
        sorted_by_score(s),
    ensures
        sorted_by_score(insert_scored(s, entry)),
        insert_scored(s, entry).len() == s.len() + 1,
        forall|i: int| 0 <= i < insert_index(s, entry.score) ==> #[trigger] s[i].score <= entry.score,
        forall|i: int| insert_index(s, entry.score) <= i < s.len() ==> #[trigger] s[i].score > entry.score,
    decreases s.len(),
{
    let k = insert_index(s, entry.score);
    lemma_insert_index_bounds(s, entry.score);
    let t = insert_scored(s, entry);
    assert forall|i: int, j: int| 0 <= i < j < t.len() implies #[trigger] t[i].score <= #[trigger] t[j].score by {
        if i < k && j == k {
            assert(s[i].score <= entry.score);
        } else if i == k && j > k {
            assert(s[j - 1].score > entry.score);
        } else if i < k && j > k {
            assert(s[i].score <= s[j - 1].score);
        } else if i > k {
            assert(s[i - 1].score <= s[j - 1].score);
        }
    }
}

/// The place of a new entry splits the sorted entries into those not bigger and those bigger.
pub proof fn lemma_insert_index_bounds(s: Seq<ScoredEntry>, score: u8)
    requires
        sorted_by_score(s),
    ensures
        0 <= insert_index(s, score) <= s.len(),
        forall|i: int| 0 <= i < insert_index(s, score) ==> #[trigger] s[i].score <= score,
        forall|i: int| insert_index(s, score) <= i < s.len() ==> #[trigger] s[i].score > score,
    decreases s.len(),
{
    if s.len() > 0 {
        if s.last().score > score {
            let t = s.drop_last();
            assert(sorted_by_score(t));
            lemma_insert_index_bounds(t, score);
            assert forall|i: int| insert_index(s, score) <= i < s.len() implies #[trigger] s[i].score > score by {
                if i < s.len() - 1 {
                    assert(t[i] == s[i]);
                }
            }
            assert forall|i: int| 0 <= i < insert_index(s, score) implies #[trigger] s[i].score <= score by {
                assert(t[i] == s[i]);
            }
        } else {
            assert forall|i: int| 0 <= i < insert_index(s, score) implies #[trigger] s[i].score <= score by {
                if i < s.len() - 1 {
                    assert(s[i].score <= s[s.len() - 1].score);
                }
            }
        }
    }
}

/// The entry that comes out next has the highest score.
pub proof fn lemma_next_is_highest(s: Seq<ScoredEntry>)
    requires
        sorted_by_score(s),
        s.len() > 0,
    ensures
        forall|i: int| 0 <= i < s.len() ==> #[trigger] s[i].score <= s.last().score,
{
    assert forall|i: int| 0 <= i < s.len() implies #[trigger] s[i].score <= s.last().score by {
        if i < s.len() - 1 {
            assert(s[i].score <= s[s.len() - 1].score);
        }
    }
}

} // verus!
