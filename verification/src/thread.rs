use vstd::prelude::*;
use crate::frc::Castling;
use crate::moves::Move;
use crate::evaluate::cache_ok;
use crate::network::{EvalTable, Network};
use crate::position::Position;
use crate::tables::{HashTable, HistoryTable, NodeTable, PlyTable};

verus! {

/// The clock of the standard library.
#[verifier::external_type_specification]
#[verifier::external_body]
pub struct ExInstant(std::time::Instant);

/// Reads the clock (`std::time::Instant::now`). Nothing is claimed of the reading.
#[verifier::external_body]
pub(crate) fn now() -> (r: std::time::Instant) {
    std::time::Instant::now()
}

/// The time since `t` (`Instant::elapsed`). Nothing is claimed of it: it comes from the clock.
#[verifier::external_body]
pub(crate) fn elapsed(t: &std::time::Instant) -> (r: std::time::Duration) {
    t.elapsed()
}

/// The whole milliseconds of `d` (`Duration::as_millis`). Nothing is claimed of the value:
/// a duration is opaque here.
#[verifier::external_body]
pub(crate) fn as_millis(d: &std::time::Duration) -> (r: u128) {
    d.as_millis()
}

/// A count of milliseconds, stopping at the largest 64-bit count.
pub fn millis_u64(ms: u128) -> (r: u64)
    ensures
        r == if ms > u64::MAX { u64::MAX as int } else { ms as int },
{
    if ms > 0xFFFF_FFFF_FFFF_FFFFu128 {
        0xFFFF_FFFF_FFFF_FFFFu64
    } else {
        ms as u64
    }
}

/// Milliseconds since `t`, stopping at the largest 64-bit count. The clock decides the value:
/// nothing is claimed of it.
pub fn elapsed_ms(t: &std::time::Instant) -> (r: u64) {
    let ms = as_millis(&elapsed(t));
    millis_u64(ms)
}

/// What one iteration of the search found: depth, selective depth, score, time taken, nodes
/// searched and the principal variation.
#[derive(Clone, Copy)]
pub struct DepthReport {
    pub depth: i32,
    pub seldepth: i32,
    pub score: i32,
    pub time: u64,
    pub nodes: u64,
    pub pv: crate::moves::MoveList,
}

/// Side of the late move reduction table.
pub const LMR_SIZE: usize = 256;

/// What one search thread keeps: search control (clock, limits, stop flag), the tables, the
/// hashes of the positions on the path from the game's start, counters for reports, the
/// network with its accumulator cache, the castling configuration, and the late move
/// reductions by depth and move number.
pub struct ThreadData<'a> {
    pub timing: std::time::Instant,
    pub max_time: u64,
    pub max_nodes: u64,
    pub abort: bool,
    pub mloop: bool,
    pub tt: HashTable,
    pub htable: HistoryTable,
    pub plied: PlyTable,
    pub ntable: NodeTable,
    pub stack: Vec<u64>,
    pub nodes: u64,
    pub qnodes: u64,
    pub ply: i32,
    pub best_move: Move,
    pub seldepth: i32,
    pub net: &'a Network,
    pub cache: EvalTable,
    pub castling: Castling,
    pub lmr: Vec<i32>,
    pub reports: Vec<DepthReport>,
}

/// Number of the hashes `k` places back from the end of `stack` (`k` odd, from one up to
/// `limit`) equal to `hash`, counting those with `k` below `n`.
pub open spec fn rep_count(stack: Seq<u64>, hash: u64, limit: int, n: int) -> int
    decreases n,
{
    if n <= 0 {
        0
    } else {
        let k = n - 1;
        rep_count(stack, hash, limit, n - 1) + if k % 2 == 1 && k <= limit && k < stack.len() && stack[stack.len() - 1 - k] == hash {
            1int
        } else {
            0int
        }
    }
}

impl<'a> ThreadData<'a> {
    /// The tables have their sizes and invariants, principal variations fit their plies, and
    /// the root excludes no move.
    pub open spec fn wf(&self) -> bool {
        &&& self.tt.wf()
        &&& self.htable.wf()
        &&& self.plied.table@.len() == 96
        &&& self.ntable.table@.len() == 4096
        &&& cache_ok(self.net, self.cache)
        &&& self.net.wf()
        &&& self.castling.wf()
        &&& self.best_move.wf()
        &&& self.lmr@.len() == LMR_SIZE * LMR_SIZE
        &&& forall|i: int| 0 <= i < LMR_SIZE * LMR_SIZE ==> 0 <= #[trigger] self.lmr@[i] <= 64
        &&& forall|k: int| 0 <= k < 96 ==> (#[trigger] self.plied.table@[k]).pv_line@.len() <= 96 - k
        &&& self.plied.table@[0].singular == Move::null()
    }

    /// A thread for the network `net`, sharing nothing, with the given tables and path.
    pub fn new(
        net: &'a Network,
        tt: HashTable,
        stack: Vec<u64>,
        htable: HistoryTable,
        castling: Castling,
        lmr: Vec<i32>,
    ) -> (r: Self)
        ensures
            r.tt == tt,
            r.stack == stack,
            r.htable == htable,
            r.castling == castling,
            r.lmr == lmr,
            r.net == net,
            r.max_nodes == u64::MAX,
            r.max_time == 0,
            !r.abort,
            r.mloop,
            r.nodes == 0,
            r.qnodes == 0,
            r.ply == 0,
            r.best_move == Move::null(),
            r.seldepth == 0,
            r.plied.table@.len() == 96,
            forall|k: int| 0 <= k < 96 ==> (#[trigger] r.plied.table@[k]).pv_line@.len() == 0,
            r.plied.table@[0].singular == Move::null(),
            r.ntable.table@.len() == 4096,
            cache_ok(net, r.cache),
    {
        ThreadData {
            timing: now(),
            max_time: 0,
            max_nodes: u64::MAX,
            abort: false,
            mloop: true,
            tt,
            htable,
            plied: PlyTable::fresh(),
            ntable: NodeTable::fresh(),
            stack,
            nodes: 0,
            qnodes: 0,
            ply: 0,
            best_move: Move::null(),
            seldepth: 0,
            net,
            cache: EvalTable::new(net),
            castling,
            lmr,
            reports: Vec::new(),
        }
    }

    /// Whether the search was told to stop.
    pub fn stop_is_set(&self) -> (r: bool)
        ensures
            r == self.abort,
    {
        self.abort
    }

    /// Tells the search to stop, or lifts that.
    pub fn store_stop(&mut self, val: bool)
        ensures
            *final(self) == (ThreadData { abort: val, ..*old(self) }),
    {
        self.abort = val;
    }

    /// Whether the position with `curr_hash` repeats one on the path with the same side to
    /// move since the last irreversible move: once is enough below the root, the root needs
    /// two earlier occurrences. Paths shorter than six positions never repeat.
    pub fn repetition(&self, pos: &Position, curr_hash: u64, root: bool) -> (r: bool)
        ensures
            r == (self.stack@.len() >= 6 && rep_count(self.stack@, curr_hash, pos.halfm as int, self.stack@.len() as int) >= (if root { 2int } else { 1int })),
    {
        let n = self.stack.len();
        if n < 6 {
            return false;
        }
        let need: u8 = if root { 2 } else { 1 };
        let limit = pos.halfm();
        let mut count: u8 = 0;
        let mut k: usize = 1;
        assert(rep_count(self.stack@, curr_hash, limit as int, 0) == 0);
        assert(rep_count(self.stack@, curr_hash, limit as int, 1) == 0);
        while k <= limit && k < n
            invariant
                n == self.stack@.len(),
                limit == pos.halfm,
                1 <= k <= n + 1,
                n >= 6,
                k % 2 == 1,
                count as int == rep_count(self.stack@, curr_hash, limit as int, k as int),
                count < need,
                need <= 2,
                need == if root { 2u8 } else { 1u8 },
            decreases n + 1 - k,
        {
            proof {
                assert(rep_count(self.stack@, curr_hash, limit as int, k + 1) == count + if self.stack@[n - 1 - k] == curr_hash { 1int } else { 0int });
                assert(rep_count(self.stack@, curr_hash, limit as int, k + 2) == rep_count(self.stack@, curr_hash, limit as int, k + 1));
            }
            if self.stack[n - 1 - k] == curr_hash {
                count += 1;
                assert(count == rep_count(self.stack@, curr_hash, limit as int, k + 1));
                if count >= need {
                    proof {
                        lemma_rep_count_mono(self.stack@, curr_hash, limit as int, k + 1, n as int);
                    }
                    return true;
                }
            }
            k += 2;
        }
        proof {
            if k <= n {
                lemma_rep_count_beyond(self.stack@, curr_hash, limit as int, k as int, n as int);
            } else {
                lemma_rep_count_beyond(self.stack@, curr_hash, limit as int, n as int, k as int);
            }
        }
        false
    }

    /// Steps one ply down the path to a position with `hash`.
    pub fn push(&mut self, hash: u64)
        requires
            0 <= old(self).ply < 95,
            old(self).plied.table@.len() == 96,
        ensures
            final(self).ply == old(self).ply + 1,
            final(self).stack@ == old(self).stack@.push(hash),
            final(self).plied.table@ == old(self).plied.table@.update(
                final(self).ply as int,
                crate::tables::PlyEntry { cutoffs: 0, ..old(self).plied.table@[final(self).ply as int] },
            ),
            *final(self) == (ThreadData { ply: final(self).ply, stack: final(self).stack, plied: final(self).plied, ..*old(self) }),
    {
        self.ply = self.ply + 1;
        self.stack.push(hash);
        let i = self.ply as usize;
        let e = self.plied.table[i];
        self.plied.table.set(i, crate::tables::PlyEntry { cutoffs: 0, ..e });
    }

    /// Steps one ply back up the path.
    pub fn pop(&mut self)
        requires
            old(self).ply > i32::MIN,
            old(self).stack@.len() > 0,
        ensures
            final(self).ply == old(self).ply - 1,
            final(self).stack@ == old(self).stack@.drop_last(),
            *final(self) == (ThreadData { ply: final(self).ply, stack: final(self).stack, ..*old(self) }),
    {
        self.stack.pop();
        self.ply = self.ply - 1;
    }
}

proof fn lemma_rep_count_mono(stack: Seq<u64>, hash: u64, limit: int, m: int, n: int)
    requires
        0 <= m <= n,
    ensures
        rep_count(stack, hash, limit, m) <= rep_count(stack, hash, limit, n),
    decreases n - m,
{
    if m < n {
        lemma_rep_count_mono(stack, hash, limit, m, n - 1);
    }
}

proof fn lemma_rep_count_beyond(stack: Seq<u64>, hash: u64, limit: int, m: int, n: int)
    requires
        0 <= m <= n,
        m > limit || m >= stack.len(),
    ensures
        rep_count(stack, hash, limit, n) == rep_count(stack, hash, limit, m),
    decreases n - m,
{
    if m < n {
        lemma_rep_count_beyond(stack, hash, limit, m, n - 1);
    }
}

} // verus!
