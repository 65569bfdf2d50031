//! The transposition table of the search: a flat array of slots indexed by
//! the low bits of the key (a store always replaces the slot), or a map
//! keyed by the full key. Mate scores are kept node-relative in the table
//! and rebased by the ply on the way in and out.

use vstd::prelude::*;
use std::collections::HashMap;
use crate::board::Move;
use crate::eval::MATE_THRESHOLD;
use crate::ordering::{packable, pack, unpack, pack_score, unpack_score};

verus! {

broadcast use vstd::std_specs::hash::group_hash_axioms;

/// Bound flags: the score is exact, a lower bound, an upper bound.
pub const EXACT: u8 = 0;
pub const LOWER: u8 = 1;
pub const UPPER: u8 = 2;

/// Flag of an empty flat slot.
pub const FLAT_EMPTY: u8 = 3;

/// Index bits of the flat table of the engine.
pub const FLAT_BITS: u32 = 23;

/// An entry of the map-backed table.
#[derive(Clone, Copy)]
pub struct TtEntry {
    pub depth: i32,
    pub flag: u8,
    pub score: i32,
    pub best: Option<Move>,
}

/// A slot of the flat table: the full key, the packed score, the depth,
/// the flag and the best move as three bytes (all zero: none).
#[derive(Clone, Copy)]
pub struct FlatSlot {
    pub key: u64,
    pub score: i16,
    pub depth: i8,
    pub flag: u8,
    pub mv: [u8; 3],
}

/// The table: flat (`flat_on`, `flat` has `mask + 1` slots) or a map.
pub struct Tt {
    pub flat_on: bool,
    pub mask: u64,
    pub flat: Vec<FlatSlot>,
    pub map: HashMap<u64, TtEntry>,
}

/// The move of three slot bytes: none when all are zero.
pub open spec fn decode_move(mv: [u8; 3]) -> Option<Move> {
    if mv[0] == 0 && mv[1] == 0 && mv[2] == 0 {
        None
    } else {
        Some(Move { from: mv[0], to: mv[1], promo: mv[2] })
    }
}

/// The three slot bytes of a move.
pub open spec fn encoded(best: Option<Move>) -> (u8, u8, u8) {
    match best {
        Some(m) => (m.from, m.to, m.promo),
        None => (0, 0, 0),
    }
}

/// What reading a flat slot reports: depth, flag, score, best move.
pub open spec fn slot_read(s: FlatSlot) -> (i32, u8, i32, Option<Move>) {
    (s.depth as i32, s.flag, unpack(s.score), decode_move(s.mv))
}

/// What a probe reports after storing `(depth, flag, score, best)`: the
/// flat table gives the depth as a byte, the score through its 16-bit
/// packing and the move through its bytes; the map gives them unchanged.
pub open spec fn read_back(flat_on: bool, depth: i32, flag: u8, score: i32, best: Option<Move>) -> Option<
    (i32, u8, i32, Option<Move>),
> {
    if flat_on {
        if flag == FLAT_EMPTY {
            None
        } else {
            let e = encoded(best);
            Some(
                (
                    depth as i8 as i32,
                    flag,
                    unpack(pack(score)),
                    if e.0 == 0 && e.1 == 0 && e.2 == 0 {
                        None
                    } else {
                        Some(Move { from: e.0, to: e.1, promo: e.2 })
                    },
                ),
            )
        }
    } else {
        Some((depth, flag, score, best))
    }
}

/// The flat table gives back what was stored for a depth that fits a
/// byte, a flag of a stored entry, a score its packing keeps and a move
/// other than the all-zero one; the map always does.
pub proof fn lemma_read_back(flat_on: bool, depth: i32, flag: u8, score: i32, best: Option<Move>)
    requires
        -128 <= depth <= 127,
        flag != FLAT_EMPTY,
        (-29_000 < score < 29_000) || (MATE_THRESHOLD <= score <= 102_767) || (-102_767 <= score
            <= -MATE_THRESHOLD),
        best != Some(Move { from: 0, to: 0, promo: 0 }),
    ensures
        read_back(flat_on, depth, flag, score, best) == Some((depth, flag, score, best)),
{
    crate::ordering::lemma_unpack_pack(score);
    assert(depth as i8 as i32 == depth) by (bit_vector)
        requires
            -128 <= depth <= 127,
    ;
}

impl Tt {
    /// The slot sizes agree: the flat table has `mask + 1` slots.
    pub open spec fn wf(&self) -> bool {
        self.flat_on ==> self.flat@.len() == self.mask + 1
    }

    /// The slot of `key` in the flat table.
    pub open spec fn slot_of(&self, key: u64) -> int {
        (key & self.mask) as int
    }

    /// Two keys share an entry: the same key, or in the flat table the same
    /// slot.
    pub open spec fn shares_slot(&self, k1: u64, k2: u64) -> bool {
        k1 == k2 || (self.flat_on && self.slot_of(k1) == self.slot_of(k2))
    }

    /// What probing `key` reports.
    pub open spec fn probe_spec(&self, key: u64) -> Option<(i32, u8, i32, Option<Move>)> {
        if self.flat_on {
            let s = self.flat@[self.slot_of(key)];
            if s.flag != FLAT_EMPTY && s.key == key {
                Some(slot_read(s))
            } else {
                None
            }
        } else if self.map@.contains_key(key) {
            let e = self.map@[key];
            Some((e.depth, e.flag, e.score, e.best))
        } else {
            None
        }
    }

    /// An empty table, flat with `2^bits` slots or a map.
    pub fn new(flat_on: bool, bits: u32) -> (t: Tt)
        requires
            bits <= 30,
        ensures
            t.wf(),
            t.flat_on == flat_on,
            forall|k: u64| #[trigger] t.probe_spec(k) is None,
    {
        assert((1u64 << bits) >= 1 && (1u64 << bits) <= 0x4000_0000) by (bit_vector)
            requires
                bits <= 30,
        ;
        let mask: u64 = (1u64 << bits) - 1;
        let empty = FlatSlot { key: 0, score: 0, depth: 0, flag: FLAT_EMPTY, mv: [0u8; 3] };
        let flat = if flat_on {
            vec![empty; (mask + 1) as usize]
        } else {
            Vec::new()
        };
        let t = Tt { flat_on, mask, flat, map: HashMap::new() };
        proof {
            assert forall|k: u64| #[trigger] t.probe_spec(k) is None by {
                if flat_on {
                    lemma_slot_in_range(k, mask);
                    assert(cloned(empty, t.flat@[t.slot_of(k)]));
                }
            }
        }
        t
    }

    /// Probes `key` (see `probe_spec`).
    pub fn probe(&self, key: u64) -> (r: Option<(i32, u8, i32, Option<Move>)>)
        requires
            self.wf(),
        ensures
            r == self.probe_spec(key),
    {
        if self.flat_on {
            proof {
                lemma_slot_in_range(key, self.mask);
            }
            let n = self.flat.len();
            assert((key & self.mask) < n);
            let idx = (key & self.mask) as usize;
            assert(idx as int == self.slot_of(key));
            let s = self.flat[idx];
            if s.flag != FLAT_EMPTY && s.key == key {
                let best = if s.mv[0] == 0 && s.mv[1] == 0 && s.mv[2] == 0 {
                    None
                } else {
                    Some(Move { from: s.mv[0], to: s.mv[1], promo: s.mv[2] })
                };
                assert(best == decode_move(s.mv));
                return Some((s.depth as i32, s.flag, unpack_score(s.score), best));
            }
            None
        } else {
            match self.map.get(&key) {
                Some(e) => Some((e.depth, e.flag, e.score, e.best)),
                None => None,
            }
        }
    }

    /// Stores an entry for `key`; in the flat table it replaces whatever
    /// shared the slot.
    pub fn store(&mut self, key: u64, depth: i32, flag: u8, score: i32, best: Option<Move>)
        requires
            old(self).wf(),
            old(self).flat_on ==> packable(score),
        ensures
            final(self).wf(),
            final(self).flat_on == old(self).flat_on,
            final(self).mask == old(self).mask,
            final(self).probe_spec(key) == read_back(old(self).flat_on, depth, flag, score, best),
            forall|k: u64|
                !old(self).shares_slot(key, k) ==> #[trigger] final(self).probe_spec(k) == old(
                    self,
                ).probe_spec(k),
            forall|k: u64|
                k != key && old(self).shares_slot(key, k) ==> #[trigger] final(self).probe_spec(k)
                    is None,
    {
        if self.flat_on {
            proof {
                lemma_slot_in_range(key, self.mask);
            }
            let n = self.flat.len();
            assert((key & self.mask) < n);
            let idx = (key & self.mask) as usize;
            assert(idx as int == self.slot_of(key));
            let mv: [u8; 3] = match best {
                Some(m) => [m.from, m.to, m.promo],
                None => [0u8; 3],
            };
            let s = FlatSlot { key, score: pack_score(score), depth: depth as i8, flag, mv };
            self.flat.set(idx, s);
            proof {
                assert forall|k: u64| !old(self).shares_slot(key, k) implies #[trigger] self.probe_spec(k) == old(
                    self,
                ).probe_spec(k) by {
                    lemma_slot_in_range(k, self.mask);
                }
                assert forall|k: u64| k != key && old(self).shares_slot(key, k) implies #[trigger] self.probe_spec(
                    k,
                ) is None by {
                    lemma_slot_in_range(k, self.mask);
                }
            }
        } else {
            self.map.insert(key, TtEntry { depth, flag, score, best });
        }
    }

    /// Empties the table.
    pub fn clear(&mut self)
        requires
            old(self).wf(),
        ensures
            final(self).wf(),
            final(self).flat_on == old(self).flat_on,
            final(self).mask == old(self).mask,
            forall|k: u64| #[trigger] final(self).probe_spec(k) is None,
    {
        if self.flat_on {
            let n = self.flat.len();
            let mut i: usize = 0;
            while i < n
                invariant
                    self.flat_on,
                    self.mask == old(self).mask,
                    n == self.flat@.len(),
                    self.wf(),
                    i <= n,
                    forall|j: int| 0 <= j < i ==> (#[trigger] self.flat@[j]).flag == FLAT_EMPTY,
                decreases n - i,
            {
                let mut s = self.flat[i];
                s.flag = FLAT_EMPTY;
                self.flat.set(i, s);
                i = i + 1;
            }
            proof {
                assert forall|k: u64| #[trigger] self.probe_spec(k) is None by {
                    lemma_slot_in_range(k, self.mask);
                }
            }
        } else {
            self.map.clear();
        }
    }

    /// The map-backed table has grown past `cap` entries (the flat table
    /// never does).
    pub fn over_cap(&self, cap: usize) -> (r: bool)
        ensures
            r == (!self.flat_on && self.map@.len() > cap),
    {
        !self.flat_on && self.map.len() > cap
    }
}

proof fn lemma_slot_in_range(key: u64, mask: u64)
    ensures
        key & mask <= mask,
{
    assert(key & mask <= mask) by (bit_vector);
}

/// The bound a search result is: an upper bound when it did not rise above
/// the window's lower end, a lower bound when it reached the upper end,
/// exact in between.
pub open spec fn bound_of(best: int, alpha: int, beta: int) -> u8 {
    if best <= alpha {
        UPPER
    } else if best >= beta {
        LOWER
    } else {
        EXACT
    }
}

/// The table flag of a search result (see `bound_of`).
pub fn bound_flag(best: i32, alpha: i32, beta: i32) -> (f: u8)
    ensures
        f == bound_of(best as int, alpha as int, beta as int),
{
    if best <= alpha {
        UPPER
    } else if best >= beta {
        LOWER
    } else {
        EXACT
    }
}

/// A score read from the table at distance `ply` from the root: mate
/// scores come back nearer to zero by the ply.
pub open spec fn from_tt(score: int, ply: int) -> int {
    if score >= MATE_THRESHOLD {
        score - ply
    } else if score <= -MATE_THRESHOLD {
        score + ply
    } else {
        score
    }
}

/// A score written to the table at distance `ply` from the root: mate
/// scores go in further from zero by the ply.
pub open spec fn to_tt(score: int, ply: int) -> int {
    if score >= MATE_THRESHOLD {
        score + ply
    } else if score <= -MATE_THRESHOLD {
        score - ply
    } else {
        score
    }
}

/// Does the table score, rebased to `ply`, fit an `i32`?
pub fn from_tt_fits(score: i32, ply: i32) -> (r: bool)
    ensures
        r == (i32::MIN <= from_tt(score as int, ply as int) <= i32::MAX),
{
    let wide: i64 = if score >= MATE_THRESHOLD {
        score as i64 - ply as i64
    } else if score <= -MATE_THRESHOLD {
        score as i64 + ply as i64
    } else {
        score as i64
    };
    i32::MIN as i64 <= wide && wide <= i32::MAX as i64
}

/// Does the node score, rebased for the table, fit an `i32`?
pub fn to_tt_fits(score: i32, ply: i32) -> (r: bool)
    ensures
        r == (i32::MIN <= to_tt(score as int, ply as int) <= i32::MAX),
{
    let wide: i64 = if score >= MATE_THRESHOLD {
        score as i64 + ply as i64
    } else if score <= -MATE_THRESHOLD {
        score as i64 - ply as i64
    } else {
        score as i64
    };
    i32::MIN as i64 <= wide && wide <= i32::MAX as i64
}

/// Rebases a table score to the node at `ply` (see `from_tt`).
pub fn score_from_tt(score: i32, ply: i32) -> (r: i32)
    requires
        i32::MIN <= from_tt(score as int, ply as int) <= i32::MAX,
    ensures
        r == from_tt(score as int, ply as int),
{
    if score >= MATE_THRESHOLD {
        score - ply
    } else if score <= -MATE_THRESHOLD {
        score + ply
    } else {
        score
    }
}

/// Rebases a score of the node at `ply` for the table (see `to_tt`).
pub fn score_to_tt(score: i32, ply: i32) -> (r: i32)
    requires
        i32::MIN <= to_tt(score as int, ply as int) <= i32::MAX,
    ensures
        r == to_tt(score as int, ply as int),
{
    if score >= MATE_THRESHOLD {
        score + ply
    } else if score <= -MATE_THRESHOLD {
        score - ply
    } else {
        score
    }
}

/// A score stored at some ply and read back at the same ply is unchanged.
pub proof fn lemma_tt_rebase(score: int, ply: int)
    requires
        ply >= 0,
    ensures
        from_tt(to_tt(score, ply), ply) == score,
{
}

/// Number of times `key` occurs in `keys`.
pub open spec fn occurrences(keys: Seq<u64>, key: u64) -> nat
    decreases keys.len(),
{
    if keys.len() == 0 {
        0
    } else {
        occurrences(keys.drop_last(), key) + if keys.last() == key { 1nat } else { 0nat }
    }
}

/// How many times `key` occurs in the position history.
pub fn key_count(keys: &Vec<u64>, key: u64) -> (c: usize)
    ensures
        c == occurrences(keys@, key),
{
    let mut c: usize = 0;
    let mut i: usize = 0;
    while i < keys.len()
        invariant
            i <= keys@.len(),
            c == occurrences(keys@.subrange(0, i as int), key),
            c <= i,
        decreases keys@.len() - i,
    {
        assert(keys@.subrange(0, i as int + 1).drop_last() =~= keys@.subrange(0, i as int));
        if keys[i] == key {
            c = c + 1;
        }
        i = i + 1;
    }
    assert(keys@.subrange(0, keys@.len() as int) =~= keys@);
    c
}

/// Does `key` occur at least twice in the position history?
pub fn is_repetition2(keys: &Vec<u64>, key: u64) -> (r: bool)
    ensures
        r == (occurrences(keys@, key) >= 2),
{
    key_count(keys, key) >= 2
}

/// What a table entry of sufficient depth does to a node with window
/// (`alpha`, `beta`): an exact score is returned; a lower bound raises
/// `alpha`, an upper bound lowers `beta`; a window that closes returns the
/// score.
pub enum TtVerdict {
    Return(i32),
    Window(i32, i32),
}

pub open spec fn tt_verdict(flag: u8, score: i32, alpha: i32, beta: i32) -> TtVerdict {
    if flag == EXACT {
        TtVerdict::Return(score)
    } else {
        let a = if flag == LOWER && score > alpha { score } else { alpha };
        let b = if flag != LOWER && score < beta { score } else { beta };
        if a >= b {
            TtVerdict::Return(score)
        } else {
            TtVerdict::Window(a, b)
        }
    }
}

/// The effect of a table entry on the window (see `tt_verdict`).
pub fn tt_cut(flag: u8, score: i32, alpha: i32, beta: i32) -> (r: TtVerdict)
    ensures
        r == tt_verdict(flag, score, alpha, beta),
{
    if flag == EXACT {
        return TtVerdict::Return(score);
    }
    let mut a = alpha;
    let mut b = beta;
    if flag == LOWER {
        if score > a {
            a = score;
        }
    } else {
        if score < b {
            b = score;
        }
    }
    if a >= b {
        TtVerdict::Return(score)
    } else {
        TtVerdict::Window(a, b)
    }
}

/// In quiescence a table entry ends the node when it is exact, a lower
/// bound at or above `beta`, or an upper bound at or below `alpha`.
pub open spec fn qtt_returns(flag: u8, score: i32, alpha: i32, beta: i32) -> bool {
    flag == EXACT || (flag == LOWER && score >= beta) || (flag != EXACT && flag != LOWER && score <= alpha)
}

/// Does the table entry end the quiescence node (see `qtt_returns`)?
pub fn qtt_cut(flag: u8, score: i32, alpha: i32, beta: i32) -> (r: bool)
    ensures
        r == qtt_returns(flag, score, alpha, beta),
{
    if flag == EXACT {
        true
    } else if flag == LOWER {
        score >= beta
    } else {
        score <= alpha
    }
}

/// Contempt of the search for draws.
pub const CONTEMPT: i32 = 25;

/// The score of a draw at distance `ply` from the root: the side to move at
/// the root (even plies) counts a draw as a small loss.
pub open spec fn draw_score_spec(ply: i32) -> int {
    if ply % 2 == 0 {
        -CONTEMPT
    } else {
        CONTEMPT as int
    }
}

pub fn draw_score(ply: i32) -> (r: i32)
    ensures
        r == draw_score_spec(ply),
{
    if ply % 2 == 0 {
        -CONTEMPT
    } else {
        CONTEMPT
    }
}

} // verus!
