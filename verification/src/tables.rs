use vstd::prelude::*;
use crate::bits::tdiv;
use crate::consts::{MoveScore, Score};
use crate::moves::{short_of, Move, MoveList};
use crate::position::Position;

verus! {

/// A transposition table entry: the top sixteen bits of the hash, the packed best move, the
/// score, the depth searched, and the bound type in the two low bits of `bound` with the age of
/// the table when it was written in the bits above.
#[derive(Clone, Copy)]
pub struct HashEntry {
    pub key: u16,
    pub best_move: u16,
    pub score: i16,
    pub depth: i8,
    pub bound: u8,
}

/// The sixty-four bit word an entry is stored as: key, move, score, depth and bound from the
/// lowest sixteen bits up.
pub open spec fn pack_entry(e: HashEntry) -> u64 {
    (e.key as u64) | ((e.best_move as u64) << 16u64) | (((e.score as u16) as u64) << 32u64) | (((e.depth as u8) as u64) << 48u64)
        | ((e.bound as u64) << 56u64)
}

/// The entry a stored word holds.
pub open spec fn unpack_entry(x: u64) -> HashEntry {
    HashEntry {
        key: x as u16,
        best_move: (x >> 16u64) as u16,
        score: ((x >> 32u64) as u16) as i16,
        depth: ((x >> 48u64) as u8) as i8,
        bound: (x >> 56u64) as u8,
    }
}

/// Unpacking the stored word of an entry gives the entry back.
pub proof fn lemma_unpack_pack(e: HashEntry)
    ensures
        unpack_entry(pack_entry(e)) == e,
{
    let (k, m, s, d, b) = (e.key, e.best_move, e.score, e.depth, e.bound);
    assert({
        let x = (k as u64) | ((m as u64) << 16u64) | (((s as u16) as u64) << 32u64) | (((d as u8) as u64) << 48u64) | ((b as u64) << 56u64);
        &&& x as u16 == k
        &&& (x >> 16u64) as u16 == m
        &&& ((x >> 32u64) as u16) as i16 == s
        &&& ((x >> 48u64) as u8) as i8 == d
        &&& (x >> 56u64) as u8 == b
    }) by (bit_vector);
}

/// Packing the entry a word holds gives the word back.
pub proof fn lemma_pack_unpack(x: u64)
    ensures
        pack_entry(unpack_entry(x)) == x,
{
    assert((x as u16 as u64) | (((x >> 16u64) as u16 as u64) << 16u64) | (((((x >> 32u64) as u16) as i16) as u16 as u64) << 32u64)
        | (((((x >> 48u64) as u8) as i8) as u8 as u64) << 48u64) | (((x >> 56u64) as u8 as u64) << 56u64) == x) by (bit_vector);
}

impl HashEntry {
    pub fn depth(&self) -> (r: i32)
        ensures
            r == self.depth,
    {
        self.depth as i32
    }

    /// The bound type, without the age bits.
    pub fn bound(&self) -> (r: u8)
        ensures
            r == self.bound & 3,
    {
        self.bound & 3
    }

    pub fn score(&self) -> (r: i32)
        ensures
            r == self.score,
    {
        self.score as i32
    }

    /// The stored best move, with its piece read off `pos`.
    pub fn best_move(&self, pos: &Position) -> (r: Move)
        ensures
            r.from == (self.best_move / 64) % 64,
            r.to == self.best_move % 64,
            r.flag == self.best_move / 4096,
            r.pc == crate::position::piece_at(pos.bb, r.from as int),
    {
        Move::from_short(self.best_move, pos)
    }

    /// The entry held by a stored word.
    pub fn from_internal(atom: HashEntryInternal) -> (r: HashEntry)
        ensures
            r == unpack_entry(atom.data),
    {
        let x = atom.data;
        HashEntry {
            key: x as u16,
            best_move: (x >> 16u64) as u16,
            score: ((x >> 32u64) as u16) as i16,
            depth: ((x >> 48u64) as u8) as i8,
            bound: (x >> 56u64) as u8,
        }
    }

    /// The word the entry is stored as.
    pub fn to_u64(self) -> (r: u64)
        ensures
            r == pack_entry(self),
    {
        (self.key as u64) | ((self.best_move as u64) << 16u64) | (((self.score as u16) as u64) << 32u64) | (((self.depth as u8) as u64) << 48u64)
            | ((self.bound as u64) << 56u64)
    }
}

/// A stored entry.
#[derive(Clone, Copy)]
pub struct HashEntryInternal {
    pub data: u64,
}

impl Default for HashEntryInternal {
    fn default() -> (r: Self)
        ensures
            r.data == 0,
    {
        HashEntryInternal { data: 0 }
    }
}

/// The transposition table: a power-of-two number of stored entries and the current age.
pub struct HashTable {
    pub table: Vec<HashEntryInternal>,
    pub age: u8,
}

/// Index of the slot of `hash` in a table of `len` slots.
pub open spec fn slot(hash: u64, len: int) -> int {
    ((hash as usize) & ((len - 1) as usize)) as int
}

/// The age an entry was written at.
pub open spec fn entry_age(x: u64) -> int {
    (unpack_entry(x).bound >> 2u8) as int
}

/// Score adjusted for storing at `ply`: mate scores are made relative to the node.
pub open spec fn store_score(score: int, ply: int) -> int {
    if score > Score::MATE {
        score + ply
    } else if score < -Score::MATE {
        score - ply
    } else {
        score
    }
}

/// Score read back at `ply`: mate scores are made relative to the root again.
pub open spec fn load_score(score: int, ply: int) -> int {
    if score > Score::MATE {
        score - ply
    } else if score < -Score::MATE {
        score + ply
    } else {
        score
    }
}

impl HashTable {
    /// The table has slots, its age is below 64, and no entry is younger than the table.
    pub open spec fn wf(&self) -> bool {
        &&& self.table@.len() > 0
        &&& self.age < 64
        &&& forall|i: int| 0 <= i < self.table@.len() ==> entry_age(#[trigger] self.table@[i].data) <= self.age
    }

    /// The stored entries.
    pub open spec fn entries(&self) -> Seq<HashEntry> {
        Seq::new(self.table@.len(), |i: int| unpack_entry(self.table@[i].data))
    }

    /// Whether pushing for `hash` at `depth` and `ply` leaves the table as it is: the slot holds
    /// an entry for the same position, searched deep enough given how much older it is.
    pub open spec fn keeps(&self, hash: u64, depth: i8, ply: i32) -> bool {
        let e = unpack_entry(self.table@[slot(hash, self.table@.len() as int)].data);
        let diff = self.age - (e.bound >> 2u8);
        ply > 0 && (hash >> 48u64) as u16 == e.key && ((depth as u8) + 2 * diff) % 256 < (e.depth as u8)
    }

    /// The entry that pushing writes.
    pub open spec fn pushed(&self, hash: u64, mov: Move, depth: i8, bound: u8, score: i32, ply: i32) -> HashEntry {
        HashEntry {
            key: (hash >> 48u64) as u16,
            best_move: short_of(mov.from as int, mov.to as int, mov.flag as int) as u16,
            score: store_score(score as int, ply as int) as i16,
            depth,
            bound: ((self.age << 2u8) | bound) as u8,
        }
    }

    /// What probing for `hash` at `ply` finds.
    pub open spec fn probed(&self, hash: u64, ply: i32) -> Option<HashEntry> {
        let e = unpack_entry(self.table@[slot(hash, self.table@.len() as int)].data);
        if e.key != (hash >> 48u64) as u16 {
            None
        } else {
            Some(HashEntry { score: load_score(e.score as int, ply as int) as i16, ..e })
        }
    }
}

proof fn lemma_slot(hash: u64, len: usize)
    requires
        len > 0,
    ensures
        0 <= ((hash as usize) & ((len - 1) as usize)) < len,
{
    let m = (len - 1) as usize;
    let h = hash as usize;
    assert(h & m <= m) by (bit_vector);
}

proof fn lemma_age_bits(age: u8, bound: u8)
    requires
        age < 64,
        bound < 4,
    ensures
        ((age << 2u8) | bound) >> 2u8 == age,
        ((age << 2u8) | bound) & 3u8 == bound,
{
    assert(((age << 2u8) | bound) >> 2u8 == age && ((age << 2u8) | bound) & 3u8 == bound) by (bit_vector)
        requires
            age < 64,
            bound < 4,
    ;
}

proof fn lemma_zero_entry()
    ensures
        entry_age(0) == 0,
        unpack_entry(0).key == 0,
{
    assert((0u64 >> 56u64) as u8 == 0 && 0u8 >> 2u8 == 0 && 0u64 as u16 == 0) by (bit_vector);
}

/// Base two logarithm of the number of slots of a table of `size` megabytes.
pub open spec fn table_shift(size: usize) -> int {
    80 - vstd::std_specs::bits::u64_leading_zeros(size as u64)
}

impl Default for HashTable {
    fn default() -> (r: Self)
        ensures
            r.table@.len() == 0,
            r.age == 0,
    {
        HashTable { table: Vec::new(), age: 0 }
    }
}

impl HashTable {
    /// Makes the table `2 ^ (80 - leading zeros of size)` empty slots, that is `size`
    /// megabytes rounded to a power of two, and resets the age.
    pub fn resize(&mut self, size: usize)
        requires
            table_shift(size) < usize::BITS,
        ensures
            final(self).table@.len() == (1usize << table_shift(size) as usize),
            forall|i: int| 0 <= i < final(self).table@.len() ==> #[trigger] final(self).table@[i].data == 0,
            final(self).age == 0,
            final(self).wf(),
    {
        proof {
            vstd::std_specs::bits::axiom_u64_leading_zeros(size as u64);
        }
        let shift: u32 = 80 - (size as u64).leading_zeros();
        let n: usize = 1usize << shift as usize;
        proof {
            let s = shift as usize;
            assert(s < usize::BITS ==> (1usize << s) > 0) by (bit_vector);
        }
        let mut v: Vec<HashEntryInternal> = Vec::new();
        let mut i: usize = 0;
        while i < n
            invariant
                i <= n,
                v@.len() == i,
                forall|j: int| 0 <= j < i ==> #[trigger] v@[j].data == 0,
            decreases n - i,
        {
            v.push(HashEntryInternal { data: 0 });
            i += 1;
        }
        self.table = v;
        self.age = 0;
        proof {
            lemma_zero_entry();
        }
    }

    /// Empties every slot and resets the age.
    pub fn clear(&mut self)
        ensures
            final(self).table@.len() == old(self).table@.len(),
            forall|i: int| 0 <= i < final(self).table@.len() ==> #[trigger] final(self).table@[i].data == 0,
            final(self).age == 0,
            old(self).table@.len() > 0 ==> final(self).wf(),
    {
        let n = self.table.len();
        let mut i: usize = 0;
        while i < n
            invariant
                i <= n,
                self.table@.len() == n,
                forall|j: int| 0 <= j < i ==> #[trigger] self.table@[j].data == 0,
            decreases n - i,
        {
            self.table.set(i, HashEntryInternal { data: 0 });
            i += 1;
        }
        self.age = 0;
        proof {
            lemma_zero_entry();
        }
    }

    /// Ages the table by one, up to 63.
    pub fn age_up(&mut self)
        requires
            old(self).age < 64,
        ensures
            old(self).wf() ==> final(self).wf(),
            final(self).age < 64,
            final(self).table@ == old(self).table@,
            final(self).age == if old(self).age < 63 { old(self).age + 1 } else { 63 },
    {
        let a = self.get_age() + 1;
        self.age = if a < 63 { a } else { 63 };
    }

    pub fn get_age(&self) -> (r: u8)
        requires
            self.age < 255,
        ensures
            r == self.age,
    {
        self.age
    }

    /// Stores the result of a search of the position with `hash`, unless the slot holds a
    /// deep enough entry for the same position (never at the root). Mate scores are stored
    /// relative to the node at `ply`.
    pub fn push(&mut self, hash: u64, mov: Move, depth: i8, bound: u8, score: i32, ply: i32)
        requires
            old(self).wf(),
            mov.wf(),
            bound < 4,
        ensures
            final(self).wf(),
            final(self).age == old(self).age,
            old(self).keeps(hash, depth, ply) ==> final(self).table@ == old(self).table@,
            !old(self).keeps(hash, depth, ply) ==> final(self).table@ == old(self).table@.update(
                slot(hash, old(self).table@.len() as int),
                HashEntryInternal { data: pack_entry(old(self).pushed(hash, mov, depth, bound, score, ply)) },
            ),
    {
        let key = (hash >> 48u64) as u16;
        let len = self.table.len();
        proof {
            lemma_slot(hash, len);
        }
        let idx = (hash as usize) & (len - 1);
        let entry = HashEntry::from_internal(self.table[idx]);
        assert(entry_age(self.table@[idx as int].data) <= self.age);
        let diff: u8 = self.age - (entry.bound >> 2u8);
        if ply > 0 && key == entry.key && (depth as u8).wrapping_add(2 * diff) < entry.depth as u8 {
            return;
        }
        let stored: i64 = if score > Score::MATE {
            score as i64 + ply as i64
        } else if score < -Score::MATE {
            score as i64 - ply as i64
        } else {
            score as i64
        };
        let new_entry = HashEntry {
            key,
            best_move: mov.to_short(),
            score: stored as i16,
            depth,
            bound: (self.age << 2u8) | bound,
        };
        let ghost old_table = self.table@;
        self.table.set(idx, HashEntryInternal { data: new_entry.to_u64() });
        proof {
            lemma_unpack_pack(new_entry);
            lemma_age_bits(self.age, bound);
            assert forall|i: int| 0 <= i < self.table@.len() implies entry_age(#[trigger] self.table@[i].data) <= self.age by {
                if i != idx {
                    assert(self.table@[i] == old_table[i]);
                }
            }
        }
    }

    /// The entry stored for `hash`, if its slot holds one with the same key; mate scores are
    /// made relative to the root again.
    pub fn probe(&self, hash: u64, ply: i32) -> (r: Option<HashEntry>)
        requires
            self.wf(),
        ensures
            r == self.probed(hash, ply),
    {
        let len = self.table.len();
        proof {
            lemma_slot(hash, len);
        }
        let idx = (hash as usize) & (len - 1);
        let entry = HashEntry::from_internal(self.table[idx]);
        if entry.key != (hash >> 48u64) as u16 {
            return None;
        }
        let s = entry.score as i64;
        let loaded: i64 = if s > Score::MATE as i64 {
            s - ply as i64
        } else if s < -Score::MATE as i64 {
            s + ply as i64
        } else {
            s
        };
        Some(HashEntry { score: #[verifier::truncate] (loaded as i16), ..entry })
    }
}

/// A probe right after a push that was not refused finds what was pushed: the key of the
/// hash, the move, the depth, the bound type and the score itself (mate scores are adjusted on
/// the way in and back on the way out).
pub proof fn lemma_probe_after_push(
    t: HashTable,
    t2: HashTable,
    hash: u64,
    mov: Move,
    depth: i8,
    bound: u8,
    score: i32,
    ply: i32,
)
    requires
        t.wf(),
        bound < 4,
        0 <= ply < 0x8000,
        -0x7FFF + ply <= score <= 0x7FFF - ply,
        !t.keeps(hash, depth, ply),
        t2.age == t.age,
        t2.table@ == t.table@.update(
            slot(hash, t.table@.len() as int),
            HashEntryInternal { data: pack_entry(t.pushed(hash, mov, depth, bound, score, ply)) },
        ),
    ensures
        t2.probed(hash, ply) matches Some(e) && {
            &&& e.key == (hash >> 48u64) as u16
            &&& e.best_move == short_of(mov.from as int, mov.to as int, mov.flag as int) as u16
            &&& e.score == score
            &&& e.depth == depth
            &&& e.bound & 3 == bound
        },
{
    let len = t.table@.len() as int;
    lemma_slot(hash, t.table.len());
    let p = t.pushed(hash, mov, depth, bound, score, ply);
    lemma_unpack_pack(p);
    lemma_age_bits(t.age, bound);
    assert(t2.table@[slot(hash, len)].data == pack_entry(p));
    assert(t2.table@.len() == len);
}

/// A view onto a shared transposition table.
pub struct HashView<'a> {
    pub table: &'a HashTable,
}

impl<'a> HashView<'a> {
    pub fn new(tt: &'a HashTable) -> (r: Self)
        ensures
            r.table == tt,
    {
        HashView { table: tt }
    }
}

/// History of a quiet move: its score and the move that answered it.
#[derive(Clone, Copy)]
pub struct HistoryEntry {
    pub score: i32,
    pub counter: Move,
}

impl Default for HistoryEntry {
    fn default() -> (r: Self)
        ensures
            r.score == 0,
            r.counter == Move::null(),
    {
        HistoryEntry { score: 0, counter: Move::null() }
    }
}

/// Slot of the history of a move of `side` with piece `pc` to `to`.
pub open spec fn hist_index(side: int, pc: int, to: int) -> int {
    512 * side + 64 * pc + to
}

/// History table: an entry for each side, piece kind and destination square.
#[derive(Clone)]
pub struct HistoryTable {
    pub table: Vec<HistoryEntry>,
}

/// A history score after a bonus (a malus when negative): moved towards the bound of the
/// bonus's sign by the bonus, less in proportion to how close it already is.
pub open spec fn gravity(score: int, bonus: int) -> int {
    score + (bonus - tdiv(score * (if bonus >= 0 { bonus } else { -bonus }), MoveScore::HISTORY_MAX as int))
}

/// History scores stay within plus or minus `HISTORY_MAX` under bonuses within that range.
pub proof fn lemma_gravity_bounded(s: int, b: int)
    requires
        -16384 <= s <= 16384,
        -16384 <= b <= 16384,
    ensures
        -16384 <= gravity(s, b) <= 16384,
{
    let m: int = 16384;
    let ab = if b >= 0 { b } else { -b };
    let p = s * ab;
    if p >= 0 {
        let q = p / m;
        vstd::arithmetic::div_mod::lemma_fundamental_div_mod(p, m);
        assert(tdiv(p, m) == q);
        if b >= 0 {
            assert(-m <= s + b - q <= m) by (nonlinear_arith)
                requires
                    p == s * b, m == 16384, p == m * q + p % m, 0 <= p % m < m, -m <= s <= m, 0 <= b <= m, p >= 0;
        } else {
            assert(-m <= s + b - q <= m) by (nonlinear_arith)
                requires
                    p == s * (-b), m == 16384, p == m * q + p % m, 0 <= p % m < m, -m <= s <= m, -m <= b < 0, p >= 0;
        }
    } else {
        let q = (-p) / m;
        vstd::arithmetic::div_mod::lemma_fundamental_div_mod(-p, m);
        assert(tdiv(p, m) == -q);
        if b >= 0 {
            assert(-m <= s + b + q <= m) by (nonlinear_arith)
                requires
                    p == s * b, m == 16384, -p == m * q + (-p) % m, 0 <= (-p) % m < m, -m <= s <= m, 0 <= b <= m, p < 0;
        } else {
            assert(-m <= s + b + q <= m) by (nonlinear_arith)
                requires
                    p == s * (-b), m == 16384, -p == m * q + (-p) % m, 0 <= (-p) % m < m, -m <= s <= m, -m <= b < 0, p < 0;
        }
    }
}

impl Default for HistoryTable {
    fn default() -> (r: Self)
        ensures
            r.wf(),
            forall|i: int| 0 <= i < 1024 ==> #[trigger] r.table@[i].score == 0 && r.table@[i].counter == Move::null(),
    {
        HistoryTable::fresh()
    }
}

impl HistoryTable {
    /// A table of zero scores and no counter moves.
    pub fn fresh() -> (r: Self)
        ensures
            r.wf(),
            forall|i: int| 0 <= i < 1024 ==> (#[trigger] r.table@[i]).score == 0 && r.table@[i].counter == Move::null(),
    {
        let mut table: Vec<HistoryEntry> = Vec::new();
        let mut i: usize = 0;
        while i < 1024
            invariant
                i <= 1024,
                table@.len() == i,
                forall|j: int| 0 <= j < i ==> #[trigger] table@[j].score == 0 && table@[j].counter == Move::null(),
            decreases 1024 - i,
        {
            table.push(HistoryEntry::default());
            i += 1;
        }
        HistoryTable { table }
    }
}

impl HistoryTable {
    /// The table has its 1024 entries and every score lies within plus or minus `HISTORY_MAX`.
    pub open spec fn wf(&self) -> bool {
        &&& self.table@.len() == 1024
        &&& forall|i: int| 0 <= i < 1024 ==> -16384 <= #[trigger] self.table@[i].score <= 16384
    }

    /// Halves every score (rounding towards zero) and forgets every counter move.
    pub fn age(&mut self)
        requires
            old(self).wf(),
        ensures
            final(self).wf(),
            forall|i: int| 0 <= i < 1024 ==> #[trigger] final(self).table@[i].score == tdiv(old(self).table@[i].score as int, 2)
                && final(self).table@[i].counter == Move::null(),
    {
        let mut i: usize = 0;
        while i < 1024
            invariant
                i <= 1024,
                self.table@.len() == 1024,
                forall|j: int| 0 <= j < i ==> #[trigger] self.table@[j].score == tdiv(old(self).table@[j].score as int, 2)
                    && self.table@[j].counter == Move::null(),
                forall|j: int| i <= j < 1024 ==> #[trigger] self.table@[j] == old(self).table@[j],
                forall|j: int| 0 <= j < 1024 ==> -16384 <= #[trigger] self.table@[j].score <= 16384,
                forall|j: int| 0 <= j < 1024 ==> -16384 <= #[trigger] old(self).table@[j].score <= 16384,
            decreases 1024 - i,
        {
            let e = self.table[i];
            self.table.set(i, HistoryEntry { score: e.score / 2, counter: Move::null() });
            i += 1;
        }
    }

    /// Resets every entry.
    pub fn clear(&mut self)
        ensures
            final(self).wf(),
            forall|i: int| 0 <= i < 1024 ==> (#[trigger] final(self).table@[i]).score == 0 && final(self).table@[i].counter == Move::null(),
    {
        *self = HistoryTable::fresh();
    }

    /// History score of a move by `side`.
    pub fn get_score(&self, side: usize, mov: Move) -> (r: i32)
        requires
            self.wf(),
            side < 2,
            mov.wf(),
        ensures
            r == self.table@[hist_index(side as int, mov.pc as int, mov.to as int)].score,
    {
        self.table[512 * side + 64 * mov.moved_pc() + mov.to()].score
    }

    /// The move that last answered `prev` by `side`.
    pub fn get_counter(&self, side: usize, prev: Move) -> (r: Move)
        requires
            self.wf(),
            side < 2,
            prev.wf(),
        ensures
            r == self.table@[hist_index(side as int, prev.pc as int, prev.to as int)].counter,
    {
        self.table[512 * side + 64 * prev.moved_pc() + prev.to()].counter
    }

    /// Gives a move of `side` a bonus (a malus when negative).
    pub fn push(&mut self, mov: Move, side: usize, bonus: i32)
        requires
            old(self).wf(),
            side < 2,
            mov.wf(),
            -MoveScore::HISTORY_MAX <= bonus <= MoveScore::HISTORY_MAX,
        ensures
            final(self).wf(),
            ({
                let i = hist_index(side as int, mov.pc as int, mov.to as int);
                let e = old(self).table@[i];
                final(self).table@ == old(self).table@.update(i, HistoryEntry { score: gravity(e.score as int, bonus as int) as i32, ..e })
            }),
    {
        let i = 512 * side + 64 * mov.moved_pc() + mov.to();
        let e = self.table[i];
        proof {
            lemma_gravity_bounded(e.score as int, bonus as int);
            let ab = if bonus >= 0 { bonus as int } else { -bonus };
            assert(-16384 * 16384 <= e.score * ab <= 16384 * 16384) by (nonlinear_arith)
                requires
                    -16384 <= e.score <= 16384,
                    0 <= ab <= 16384;
        }
        let ab: i32 = if bonus >= 0 { bonus } else { -bonus };
        let score = e.score + (bonus - e.score * ab / MoveScore::HISTORY_MAX);
        self.table.set(i, HistoryEntry { score, ..e });
    }

    /// Records `mov` as the answer of `side` to `prev`.
    pub fn push_counter(&mut self, side: usize, prev: Move, mov: Move)
        requires
            old(self).wf(),
            side < 2,
            prev.wf(),
        ensures
            final(self).wf(),
            ({
                let i = hist_index(side as int, prev.pc as int, prev.to as int);
                final(self).table@ == old(self).table@.update(i, HistoryEntry { counter: mov, ..old(self).table@[i] })
            }),
    {
        let i = 512 * side + 64 * prev.moved_pc() + prev.to();
        let e = self.table[i];
        self.table.set(i, HistoryEntry { counter: mov, ..e });
    }
}

/// Nodes spent below each root move, by source and destination square.
pub struct NodeTable {
    pub table: Vec<u64>,
}

impl Default for NodeTable {
    fn default() -> (r: Self)
        ensures
            r.table@.len() == 4096,
    {
        NodeTable::fresh()
    }
}

impl NodeTable {
    /// A table of zero counts.
    pub fn fresh() -> (r: Self)
        ensures
            r.table@.len() == 4096,
            forall|i: int| 0 <= i < 4096 ==> #[trigger] r.table@[i] == 0,
    {
        let mut table: Vec<u64> = Vec::new();
        let mut i: usize = 0;
        while i < 4096
            invariant
                i <= 4096,
                table@.len() == i,
                forall|j: int| 0 <= j < i ==> #[trigger] table@[j] == 0,
            decreases 4096 - i,
        {
            table.push(0);
            i += 1;
        }
        NodeTable { table }
    }
}

impl NodeTable {
    pub fn get(&self, mov: Move) -> (r: u64)
        requires
            self.table@.len() == 4096,
            mov.wf(),
        ensures
            r == self.table@[64 * mov.from + mov.to],
    {
        self.table[64 * mov.from() + mov.to()]
    }

    /// Adds `nodes` to the count of `mov` (the count stops at the largest `u64`).
    pub fn update(&mut self, mov: Move, nodes: u64)
        requires
            old(self).table@.len() == 4096,
            mov.wf(),
        ensures
            final(self).table@ == old(self).table@.update(
                64 * mov.from + mov.to,
                if old(self).table@[64 * mov.from + mov.to] + nodes <= u64::MAX {
                    (old(self).table@[64 * mov.from + mov.to] + nodes) as u64
                } else {
                    u64::MAX
                },
            ),
    {
        let i = 64 * mov.from() + mov.to();
        let v = self.table[i];
        let n = if v <= u64::MAX - nodes { v + nodes } else { u64::MAX };
        self.table.set(i, n);
    }
}

/// What the search keeps per ply: killer moves, static evaluation, the move excluded by a
/// singular search, the principal variation, the cutoff count and the double extensions.
#[derive(Clone, Copy)]
pub struct PlyEntry {
    pub killers: [Move; 2],
    pub eval: i32,
    pub singular: Move,
    pub pv_line: MoveList,
    pub cutoffs: i32,
    pub dbl_exts: i32,
}

impl Default for PlyEntry {
    fn default() -> (r: Self)
        ensures
            r.killers[0] == Move::null() && r.killers[1] == Move::null(),
            r.eval == 0,
            r.singular == Move::null(),
            r.pv_line@.len() == 0,
            r.cutoffs == 0,
            r.dbl_exts == 0,
    {
        PlyEntry {
            killers: [Move::null(); 2],
            eval: 0,
            singular: Move::null(),
            pv_line: MoveList::zeroed(),
            cutoffs: 0,
            dbl_exts: 0,
        }
    }
}

/// One entry per ply of the search.
pub struct PlyTable {
    pub table: Vec<PlyEntry>,
}

impl Default for PlyTable {
    fn default() -> (r: Self)
        ensures
            r.table@.len() == 96,
    {
        PlyTable::fresh()
    }
}

impl PlyTable {
    /// A table of fresh entries: no killers and empty principal variations.
    pub fn fresh() -> (r: Self)
        ensures
            r.table@.len() == 96,
            forall|i: int| 0 <= i < 96 ==> (#[trigger] r.table@[i]).pv_line@.len() == 0 && r.table@[i].singular == Move::null(),
    {
        let mut table: Vec<PlyEntry> = Vec::new();
        let mut i: usize = 0;
        while i < 96
            invariant
                i <= 96,
                table@.len() == i,
                forall|l: int| 0 <= l < i ==> (#[trigger] table@[l]).pv_line@.len() == 0 && table@[l].singular == Move::null(),
            decreases 96 - i,
        {
            table.push(PlyEntry::default());
            i += 1;
        }
        PlyTable { table }
    }
}

impl PlyTable {
    /// Forgets every killer move.
    pub fn clear_killers(&mut self)
        ensures
            final(self).table@.len() == old(self).table@.len(),
            forall|i: int| 0 <= i < final(self).table@.len() ==> #[trigger] final(self).table@[i] == (PlyEntry {
                killers: [Move::null(), Move::null()],
                ..old(self).table@[i]
            }),
    {
        let n = self.table.len();
        let mut i: usize = 0;
        while i < n
            invariant
                i <= n,
                self.table@.len() == n,
                n == old(self).table@.len(),
                forall|j: int| 0 <= j < i ==> #[trigger] self.table@[j] == (PlyEntry { killers: [Move::null(), Move::null()], ..old(self).table@[j] }),
                forall|j: int| i <= j < n ==> #[trigger] self.table@[j] == old(self).table@[j],
            decreases n - i,
        {
            let e = self.table[i];
            self.table.set(i, PlyEntry { killers: [Move::null(), Move::null()], ..e });
            i += 1;
        }
    }

    /// Makes `m` the first killer of the ply before `ply`, the old first killer the second.
    pub fn push_killer(&mut self, m: Move, ply: i32)
        requires
            1 <= ply <= old(self).table@.len(),
        ensures
            ({
                let i = ply - 1;
                let e = old(self).table@[i];
                final(self).table@ == old(self).table@.update(i, PlyEntry { killers: [m, e.killers[0]], ..e })
            }),
    {
        let i = (ply - 1) as usize;
        let e = self.table[i];
        self.table.set(i, PlyEntry { killers: [m, e.killers[0]], ..e });
    }
}

/// Two killer moves for each ply up to the deepest.
pub struct KillerTable {
    pub table: Vec<[Move; 2]>,
}

impl Default for KillerTable {
    fn default() -> (r: Self)
        ensures
            r.table@.len() == 97,
    {
        let mut table: Vec<[Move; 2]> = Vec::new();
        let mut i: usize = 0;
        while i < 97
            invariant
                i <= 97,
                table@.len() == i,
            decreases 97 - i,
        {
            table.push([Move::null(), Move::null()]);
            i += 1;
        }
        KillerTable { table }
    }
}

impl KillerTable {
    /// Makes `m` the first killer of the ply before `p`, the old first killer the second.
    pub fn push(&mut self, m: Move, p: i16)
        requires
            1 <= p <= old(self).table@.len(),
        ensures
            final(self).table@ == old(self).table@.update(p - 1, [m, old(self).table@[p - 1][0]]),
    {
        let ply = (p - 1) as usize;
        let k = self.table[ply];
        self.table.set(ply, [m, k[0]]);
    }
}

} // verus!
