//! A table of score bounds of positions already searched, one entry per slot.
use vstd::prelude::*;
use crate::board::key_methods::PositionKey;

verus! {

/// `n` has no divisor `d` with `2 <= d` and `d * d <= n`.
pub open spec fn no_small_divisor(n: int) -> bool {
    forall|d: int| 2 <= d && d * d <= n ==> #[trigger] (n % d) != 0
}

/// `n` is a prime number.
pub open spec fn is_prime_number(n: int) -> bool {
    n >= 2 && forall|d: int| 2 <= d < n ==> #[trigger] (n % d) != 0
}

/// Whether `n` has no divisor from 2 up to its square root: for `n >= 2`, whether
/// it is prime.
pub fn is_prime(n: u32) -> (prime: bool)
    ensures
        prime == no_small_divisor(n as int),
        n >= 2 ==> prime == is_prime_number(n as int),
{
    let mut divisor: u32 = 2;
    while (divisor as u64) * (divisor as u64) <= n as u64
        invariant
            2 <= divisor <= 65536,
            (divisor as int) * (divisor as int) <= 0x1_0000_0000,
            forall|d: int| 2 <= d < divisor ==> #[trigger] (n as int % d) != 0,
        decreases n as u64 + 1 - (divisor as u64),
    {
        proof {
            assert((divisor as u64) < 65536) by (nonlinear_arith)
                requires
                    (divisor as u64) * (divisor as u64) <= n as u64,
                    n <= 0xffff_ffffu32,
            ;
            assert(divisor as int <= n as int) by (nonlinear_arith)
                requires
                    (divisor as u64) * (divisor as u64) <= n as u64,
                    divisor >= 2,
            ;
        }
        if n % divisor == 0 {
            proof {
                assert(!no_small_divisor(n as int)) by {
                    assert((n as int % divisor as int) == 0);
                }
                if n >= 2 {
                    assert(divisor < n) by (nonlinear_arith)
                        requires
                            (divisor as int) * (divisor as int) <= n as int,
                            divisor >= 2,
                    ;
                    assert(!is_prime_number(n as int)) by {
                        assert((n as int % divisor as int) == 0);
                    }
                }
            }
            return false;
        }
        proof {
            assert((divisor as int + 1) * (divisor as int + 1) <= 0x1_0000_0000) by (nonlinear_arith)
                requires
                    divisor < 65536,
            ;
        }
        divisor += 1;
    }
    proof {
        assert forall|d: int| 2 <= d && d * d <= n implies #[trigger] (n as int % d) != 0 by {
            if d >= divisor {
                assert(d * d >= divisor * divisor) by (nonlinear_arith)
                    requires
                        d >= divisor,
                        divisor >= 0,
                ;
            }
        }
        if n >= 2 {
            lemma_small_divisor_enough(n as int);
        }
    }
    true
}

/// A number with no divisor up to its square root has no divisor but 1 and itself.
pub proof fn lemma_small_divisor_enough(n: int)
    requires
        n >= 2,
        no_small_divisor(n),
    ensures
        is_prime_number(n),
{
    assert forall|d: int| 2 <= d < n implies #[trigger] (n % d) != 0 by {
        if n % d == 0 && d * d > n {
            let e = n / d;
            assert(n == d * e) by (nonlinear_arith)
                requires
                    n % d == 0,
                    d > 0,
                    e == n / d,
            ;
            assert(e >= 2 && e * e <= n && n % e == 0) by (nonlinear_arith)
                requires
                    n == d * e,
                    2 <= d < n,
                    d * d > n,
            ;
        }
    }
}

/// The smallest prime not below `2^23`: the number of slots of the table.
///
/// A prime size spreads keys evenly; with it, a slot and the low 32 bits of a key
/// tell keys of up to 55 bits apart (Chinese remainder theorem).
pub const TABLE_SIZE_U32: u32 = 8388617;

/// The number of slots, as an index.
pub const TABLE_SIZE: usize = 8388617;

/// The low 32 bits of a key, stored to tell apart the keys that share a slot.
pub type TruncatedKey = u32;

/// What a slot stores: 0 for nothing, then the upper bounds, then the lower bounds.
pub type TableValue = u8;

/// Added to an upper bound to store it (1 to 37 for the bounds -18 to 18).
pub const STORED_UPPER_BOUND_OFFSET: u8 = 19;

/// The largest stored upper bound.
pub const MAX_STORED_UPPER_BOUND: u8 = 37;

/// Added to a lower bound to store it (38 to 74 for the bounds -18 to 18).
pub const STORED_LOWER_BOUND_OFFSET: u8 = 56;

/// The largest stored lower bound.
pub const MAX_STORED_LOWER_BOUND: u8 = 74;

/// Where a key goes in the table.
#[derive(Clone, Copy, PartialEq, Eq, Debug, Structural)]
pub struct TableKey {
    /// The slot: the key modulo the table size.
    pub table_index: u32,
    /// The low 32 bits of the key.
    pub truncated_key: u32,
}

impl From<PositionKey> for TableKey {
    fn from(position_key: PositionKey) -> (key: Self) {
        Self {
            // A u64 modulo a u32 is below the u32
            table_index: (position_key % TABLE_SIZE_U32 as u64) as u32,
            // This cast does intentional truncation
            truncated_key: position_key as TruncatedKey,
        }
    }
}

impl vstd::std_specs::convert::FromSpecImpl<PositionKey> for TableKey {
    open spec fn obeys_from_spec() -> bool {
        true
    }

    open spec fn from_spec(position_key: PositionKey) -> Self {
        table_key_of(position_key)
    }
}

/// The table key of a position key: its slot and its low 32 bits.
pub open spec fn table_key_of(position_key: PositionKey) -> TableKey {
    TableKey {
        table_index: (position_key % TABLE_SIZE_U32 as u64) as u32,
        truncated_key: position_key as u32,
    }
}

/// Keys below `2^55` with the same slot and the same low 32 bits are equal:
/// the table size is prime, so a difference that both `2^32` and the table
/// size divide is a multiple of their product, which is above `2^55`.
pub proof fn lemma_table_key_injective(k1: PositionKey, k2: PositionKey)
    requires
        k1 < 0x80_0000_0000_0000,
        k2 < 0x80_0000_0000_0000,
        table_key_of(k1) == table_key_of(k2),
    ensures
        k1 == k2,
{
    let p: int = 8388617;
    let w: int = 0x1_0000_0000;
    let x1: int = k1 as int;
    let x2: int = k2 as int;
    assert((k1 as u32) as int == k1 % 0x1_0000_0000) by (bit_vector);
    assert((k2 as u32) as int == k2 % 0x1_0000_0000) by (bit_vector);
    assert(x1 % w == x2 % w);
    assert(x1 % p == x2 % p);
    let a1: int = x1 / w;
    let a2: int = x2 / w;
    let e: int = x1 / p - x2 / p;
    vstd::arithmetic::div_mod::lemma_fundamental_div_mod(x1, w);
    vstd::arithmetic::div_mod::lemma_fundamental_div_mod(x2, w);
    vstd::arithmetic::div_mod::lemma_fundamental_div_mod(x1, p);
    vstd::arithmetic::div_mod::lemma_fundamental_div_mod(x2, p);
    let delta: int = a1 - a2;
    assert(w * delta == p * e) by (nonlinear_arith)
        requires
            x1 == w * a1 + x1 % w,
            x2 == w * a2 + x2 % w,
            x1 == p * (x1 / p) + x1 % p,
            x2 == p * (x2 / p) + x2 % p,
            x1 % w == x2 % w,
            x1 % p == x2 % p,
            delta == a1 - a2,
            e == x1 / p - x2 / p,
    ;
    assert(0 <= a1 < 0x80_0000) by {
        vstd::arithmetic::div_mod::lemma_div_pos_is_pos(x1, w);
        vstd::arithmetic::div_mod::lemma_div_is_ordered(x1, 0x80_0000_0000_0000, w);
    }
    assert(0 <= a2 < 0x80_0000) by {
        vstd::arithmetic::div_mod::lemma_div_pos_is_pos(x2, w);
        vstd::arithmetic::div_mod::lemma_div_is_ordered(x2, 0x80_0000_0000_0000, w);
    }
    // 2^32 * 1035834 == 1 + 8388617 * 530346439: multiplying by the inverse of 2^32
    assert(delta == p * (e * 1035834 - delta * 530346439)) by (nonlinear_arith)
        requires
            w * delta == p * e,
            p == 8388617,
            w == 0x1_0000_0000,
    ;
    assert(delta == 0) by (nonlinear_arith)
        requires
            delta == p * (e * 1035834 - delta * 530346439),
            p == 8388617,
            -0x80_0000 < delta < 0x80_0000,
    ;
}

/// What the table holds for a key.
#[derive(Clone, Copy, PartialEq, Eq, Debug, Structural)]
pub enum TableResult {
    Miss,
    LowerBound(i8),
    UpperBound(i8),
}

/// The stored value `v` read back: 0 is nothing, 1 to 37 an upper bound, and the
/// rest a lower bound (read through `i8`, as a signed byte).
pub open spec fn decode(v: u8) -> TableResult {
    if v == 0 {
        TableResult::Miss
    } else if v <= MAX_STORED_UPPER_BOUND {
        TableResult::UpperBound((v - STORED_UPPER_BOUND_OFFSET) as i8)
    } else {
        TableResult::LowerBound((signed_byte(v) - STORED_LOWER_BOUND_OFFSET) as i8)
    }
}

/// The bound in `result`, if any, holds of the score `x`.
pub open spec fn bound_holds(result: TableResult, x: int) -> bool {
    match result {
        TableResult::Miss => true,
        TableResult::LowerBound(b) => b <= x,
        TableResult::UpperBound(b) => x <= b,
    }
}

/// The byte `v` read as a signed byte.
pub open spec fn signed_byte(v: u8) -> int {
    if v < 128 {
        v as int
    } else {
        v - 256
    }
}

/// The byte that stands for `x` (taken modulo 256).
pub open spec fn byte_of(x: int) -> u8 {
    if x >= 0 {
        x as u8
    } else {
        (x + 256) as u8
    }
}

/// A stored value that can be read back: not one whose signed reading minus
/// `STORED_LOWER_BOUND_OFFSET` would leave the range of `i8`.
pub open spec fn readable(v: u8) -> bool {
    signed_byte(v) - STORED_LOWER_BOUND_OFFSET >= -128
}

proof fn bv_bytes(x: i8, v: u8)
    by (bit_vector)
    ensures
        x >= 0 ==> (x as u8) as int == x as int,
        x < 0 ==> (x as u8) as int == x as int + 256,
        v < 128 ==> (v as i8) as int == v as int,
        v >= 128 ==> (v as i8) as int == v as int - 256,
{
}

/// Score bounds of searched positions, by slot: a slot keeps the last bound put
/// there with the low 32 bits of its key.
pub struct TranspositionTable {
    truncated_keys: Vec<TruncatedKey>,
    saved_values: Vec<TableValue>,
}

impl TranspositionTable {
    /// The truncated key stored in slot `i`.
    pub closed spec fn stored_key(self, i: int) -> u32 {
        self.truncated_keys@[i]
    }

    /// The value stored in slot `i`.
    pub closed spec fn stored_value(self, i: int) -> u8 {
        self.saved_values@[i]
    }

    /// The table has its `TABLE_SIZE` slots, each with a readable value.
    pub closed spec fn wf(self) -> bool {
        &&& self.truncated_keys@.len() == TABLE_SIZE
        &&& self.saved_values@.len() == TABLE_SIZE
        &&& forall|i: int| 0 <= i < TABLE_SIZE ==> #[trigger] readable(self.saved_values@[i])
    }

    /// What `get` answers for `key`: the bound in its slot when the slot's
    /// truncated key is the key's, else a miss.
    pub open spec fn lookup(self, key: TableKey) -> TableResult {
        if self.stored_key(key.table_index as int) != key.truncated_key {
            TableResult::Miss
        } else {
            decode(self.stored_value(key.table_index as int))
        }
    }

    /// Every slot holds nothing.
    pub open spec fn is_empty(self) -> bool {
        forall|i: int| 0 <= i < TABLE_SIZE ==> #[trigger] self.stored_value(i) == 0
    }

    /// Every slot holds nothing, under the truncated key 0, as a new table does.
    pub open spec fn is_cleared(self) -> bool {
        &&& self.is_empty()
        &&& forall|i: int| 0 <= i < TABLE_SIZE ==> #[trigger] self.stored_key(i) == 0
    }

    /// `after` is `self` with slot `i` set to `key` and `value`.
    pub open spec fn stored(self, after: Self, i: int, key: u32, value: u8) -> bool {
        &&& after.wf()
        &&& after.stored_key(i) == key
        &&& after.stored_value(i) == value
        &&& forall|i2: int| 0 <= i2 < TABLE_SIZE && i2 != i ==> #[trigger] after.stored_key(i2)
            == self.stored_key(i2) && after.stored_value(i2) == self.stored_value(i2)
    }

    /// A table with every slot empty.
    pub fn new() -> (table: Self)
        ensures
            table.wf(),
            table.is_empty(),
            table.is_cleared(),
    {
        let mut truncated_keys: Vec<TruncatedKey> = Vec::new();
        let mut saved_values: Vec<TableValue> = Vec::new();
        let mut i: usize = 0;
        while i < TABLE_SIZE
            invariant
                i <= TABLE_SIZE,
                truncated_keys@.len() == i,
                saved_values@.len() == i,
                forall|k: int| 0 <= k < i ==> #[trigger] saved_values@[k] == 0,
                forall|k: int| 0 <= k < i ==> #[trigger] truncated_keys@[k] == 0,
            decreases TABLE_SIZE - i,
        {
            truncated_keys.push(0);
            saved_values.push(0);
            i += 1;
        }
        Self { truncated_keys, saved_values }
    }

    /// Stores an upper bound for the key (replacing what its slot held).
    pub fn put_upper_bound(&mut self, table_key: TableKey, upper_bound: i8)
        requires
            old(self).wf(),
            table_key.table_index < TABLE_SIZE,
            -91 <= upper_bound <= 108,
        ensures
            old(self).stored(
                *final(self),
                table_key.table_index as int,
                table_key.truncated_key,
                byte_of(upper_bound + STORED_UPPER_BOUND_OFFSET),
            ),
    {
        let sum = upper_bound + STORED_UPPER_BOUND_OFFSET as i8;
        let saved_value = sum as u8;
        proof {
            bv_bytes(sum, saved_value);
        }
        self.truncated_keys.set(table_key.table_index as usize, table_key.truncated_key);
        self.saved_values.set(table_key.table_index as usize, saved_value);
    }

    /// Stores a lower bound for the key (replacing what its slot held).
    pub fn put_lower_bound(&mut self, table_key: TableKey, lower_bound: i8)
        requires
            old(self).wf(),
            table_key.table_index < TABLE_SIZE,
            lower_bound <= 71,
        ensures
            old(self).stored(
                *final(self),
                table_key.table_index as int,
                table_key.truncated_key,
                byte_of(lower_bound + STORED_LOWER_BOUND_OFFSET),
            ),
    {
        let sum = lower_bound + STORED_LOWER_BOUND_OFFSET as i8;
        let saved_value = sum as u8;
        proof {
            bv_bytes(sum, saved_value);
        }
        self.truncated_keys.set(table_key.table_index as usize, table_key.truncated_key);
        self.saved_values.set(table_key.table_index as usize, saved_value);
    }

    /// The bound stored for the key, or a miss.
    pub fn get(&self, table_key: TableKey) -> (result: TableResult)
        requires
            self.wf(),
            table_key.table_index < TABLE_SIZE,
        ensures
            result == self.lookup(table_key),
    {
        let saved_truncated_key = self.truncated_keys[table_key.table_index as usize];
        if saved_truncated_key != table_key.truncated_key {
            return TableResult::Miss;
        }
        let saved_value = self.saved_values[table_key.table_index as usize];
        proof {
            assert(readable(self.saved_values@[table_key.table_index as int]));
            bv_bytes(0, saved_value);
        }
        if saved_value == 0 {
            TableResult::Miss
        } else if saved_value <= MAX_STORED_UPPER_BOUND {
            TableResult::UpperBound(saved_value as i8 - STORED_UPPER_BOUND_OFFSET as i8)
        } else {
            TableResult::LowerBound(saved_value as i8 - STORED_LOWER_BOUND_OFFSET as i8)
        }
    }

    /// Empties every slot.
    pub fn reset(&mut self)
        requires
            old(self).wf(),
        ensures
            final(self).wf(),
            final(self).is_empty(),
            final(self).is_cleared(),
    {
        let mut i: usize = 0;
        while i < TABLE_SIZE
            invariant
                i <= TABLE_SIZE,
                self.truncated_keys@.len() == TABLE_SIZE,
                self.saved_values@.len() == TABLE_SIZE,
                forall|k: int| 0 <= k < i ==> #[trigger] self.saved_values@[k] == 0,
                forall|k: int| 0 <= k < i ==> #[trigger] self.truncated_keys@[k] == 0,
                forall|k: int| 0 <= k < TABLE_SIZE ==> #[trigger] readable(self.saved_values@[k]),
            decreases TABLE_SIZE - i,
        {
            self.truncated_keys.set(i, 0);
            self.saved_values.set(i, 0);
            i += 1;
        }
    }
}


/// A bound from -18 to 18 put for a key is what `get` then answers for that key.
pub proof fn lemma_get_after_put(
    before: TranspositionTable,
    after: TranspositionTable,
    key: TableKey,
    bound: i8,
    lower: bool,
)
    requires
        -18 <= bound <= 18,
        key.table_index < TABLE_SIZE,
        lower ==> before.stored(
            after,
            key.table_index as int,
            key.truncated_key,
            byte_of(bound + STORED_LOWER_BOUND_OFFSET),
        ),
        !lower ==> before.stored(
            after,
            key.table_index as int,
            key.truncated_key,
            byte_of(bound + STORED_UPPER_BOUND_OFFSET),
        ),
    ensures
        after.lookup(key) == if lower {
            TableResult::LowerBound(bound)
        } else {
            TableResult::UpperBound(bound)
        },
{
}

/// A lower bound from -19 to 20 of a score from -18 to 18 reads back, once
/// stored, as a bound that holds of the score (-19 reads back as an upper bound of 18).
pub proof fn lemma_stored_lower_bound_holds(bound: int, x: int)
    requires
        -19 <= bound <= 20,
        -18 <= x <= 18,
        bound <= x,
    ensures
        bound_holds(decode(byte_of(bound + STORED_LOWER_BOUND_OFFSET)), x),
{
}

/// An upper bound from -20 to 19 of a score from -18 to 18 reads back, once
/// stored, as a bound that holds of the score (-20 reads back as a lower bound of
/// -57, -19 as nothing, 19 as a lower bound of -18).
pub proof fn lemma_stored_upper_bound_holds(bound: int, x: int)
    requires
        -20 <= bound <= 19,
        -18 <= x <= 18,
        x <= bound,
    ensures
        bound_holds(decode(byte_of(bound + STORED_UPPER_BOUND_OFFSET)), x),
{
}

/// `get` answers upper bounds from -18 to 18 and lower bounds of at most 71.
pub proof fn lemma_lookup_range(table: TranspositionTable, key: TableKey)
    requires
        table.wf(),
        key.table_index < TABLE_SIZE,
    ensures
        match table.lookup(key) {
            TableResult::Miss => true,
            TableResult::LowerBound(b) => b <= 71,
            TableResult::UpperBound(b) => -18 <= b <= 18,
        },
{
    assert(readable(table.saved_values@[key.table_index as int]));
}

/// What `get` answers for `key` after the puts `puts`, made in order on a
/// cleared table (each a key, whether the bound is a lower one, and the bound):
/// the bound of the last put in the key's slot when it was made under the key's
/// truncated key, and a miss when that put was under another, or when no put was
/// made in the slot.
pub open spec fn answer_after_puts(puts: Seq<(TableKey, bool, i8)>, key: TableKey) -> TableResult
    decreases puts.len(),
{
    if puts.len() == 0 {
        TableResult::Miss
    } else {
        let last = puts.last();
        if last.0.table_index != key.table_index {
            answer_after_puts(puts.drop_last(), key)
        } else if last.0.truncated_key != key.truncated_key {
            TableResult::Miss
        } else if last.1 {
            TableResult::LowerBound(last.2)
        } else {
            TableResult::UpperBound(last.2)
        }
    }
}

/// Each table of `tables` is the one before it after the put of `puts` at the
/// same place, as `put_lower_bound` and `put_upper_bound` make it.
pub open spec fn puts_made(tables: Seq<TranspositionTable>, puts: Seq<(TableKey, bool, i8)>) -> bool {
    &&& tables.len() == puts.len() + 1
    &&& forall|k: int|
        0 <= k < puts.len() ==> (#[trigger] puts[k]).0.table_index < TABLE_SIZE && tables[k].stored(
            tables[k + 1],
            puts[k].0.table_index as int,
            puts[k].0.truncated_key,
            if puts[k].1 {
                byte_of(puts[k].2 + STORED_LOWER_BOUND_OFFSET)
            } else {
                byte_of(puts[k].2 + STORED_UPPER_BOUND_OFFSET)
            },
        )
}

/// After puts of bounds from -18 to 18 on a cleared table, `get` answers, for
/// each key, the bound of the last put in its slot if that put was under the
/// same key, and a miss otherwise (with `lemma_table_key_injective`: for keys
/// below `2^55`, under the same key means with the same full key).
pub proof fn lemma_get_after_puts(
    tables: Seq<TranspositionTable>,
    puts: Seq<(TableKey, bool, i8)>,
    key: TableKey,
)
    requires
        puts_made(tables, puts),
        tables[0].is_cleared(),
        forall|k: int| 0 <= k < puts.len() ==> -18 <= (#[trigger] puts[k]).2 <= 18,
        key.table_index < TABLE_SIZE,
    ensures
        tables.last().lookup(key) == answer_after_puts(puts, key),
    decreases puts.len(),
{
    if puts.len() > 0 {
        let n = puts.len() - 1;
        let earlier_tables = tables.drop_last();
        let earlier_puts = puts.drop_last();
        assert(puts_made(earlier_tables, earlier_puts)) by {
            assert forall|k: int| 0 <= k < earlier_puts.len() implies (#[trigger] earlier_puts[k]).0.table_index
                < TABLE_SIZE && earlier_tables[k].stored(
                earlier_tables[k + 1],
                earlier_puts[k].0.table_index as int,
                earlier_puts[k].0.truncated_key,
                if earlier_puts[k].1 {
                    byte_of(earlier_puts[k].2 + STORED_LOWER_BOUND_OFFSET)
                } else {
                    byte_of(earlier_puts[k].2 + STORED_UPPER_BOUND_OFFSET)
                },
            ) by {
                assert(earlier_puts[k] == puts[k]);
            }
        }
        assert forall|k: int| 0 <= k < earlier_puts.len() implies -18 <= (#[trigger] earlier_puts[k]).2 <= 18 by {
            assert(earlier_puts[k] == puts[k]);
        }
        lemma_get_after_puts(earlier_tables, earlier_puts, key);
        let last = puts[n];
        assert(puts_made(tables, puts));
        assert(last.0.table_index < TABLE_SIZE);
        let before = tables[n];
        let after = tables[n + 1];
        assert(earlier_tables.last() == before);
        assert(tables.last() == after);
        if last.0.table_index != key.table_index {
            assert(after.lookup(key) == before.lookup(key));
        } else if last.0.truncated_key == key.truncated_key {
            lemma_get_after_put(before, after, last.0, last.2, last.1);
        }
    } else {
        assert(tables.last() == tables[0]);
    }
}

/// Putting a bound in one slot leaves what `get` answers for keys of other slots.
pub proof fn lemma_put_keeps_other_slots(
    before: TranspositionTable,
    after: TranspositionTable,
    i: int,
    truncated_key: u32,
    value: u8,
    other: TableKey,
)
    requires
        before.stored(after, i, truncated_key, value),
        other.table_index < TABLE_SIZE,
        other.table_index != i,
    ensures
        after.lookup(other) == before.lookup(other),
{
}

/// An empty table misses every key.
pub proof fn lemma_empty_misses(table: TranspositionTable, key: TableKey)
    requires
        table.is_empty(),
        key.table_index < TABLE_SIZE,
    ensures
        table.lookup(key) == TableResult::Miss,
{
}

/// The slot of every key lies in the table.
pub proof fn lemma_table_index_in_range(position_key: PositionKey)
    ensures
        (position_key % TABLE_SIZE_U32 as u64) < TABLE_SIZE,
{
}
} // verus!
