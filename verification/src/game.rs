//! Playing a list of moves in coordinate notation from a position, as a
//! game record gives them: malformed or illegal moves are passed over, and
//! the key of every position reached is kept for repetition detection.

use vstd::prelude::*;
use vstd::utf8::encode_utf8;
use vstd::string::StringSliceAdditionalSpecFns;
use crate::board::{Board, Move, Position, key_of, WHITE};
use crate::legal::{
    legal_moves, perft_ok, lemma_pseudo_fit, lemma_filter_fit, all_fit, lemma_after_keeps, move_fits,
    can_make_all,
};
use crate::attacks::is_attacked;
use crate::material::insufficient;
use crate::tt::{occurrences, key_count, Tt};
use crate::rng::Rng;
use crate::zobrist::spec_splitmix;
use crate::makemove::after;
use crate::movegen::pseudo_moves;
use crate::movetext::{parse_uci, uci_text};

verus! {

/// The bytes of each move text.
pub open spec fn texts(moves: Seq<String>) -> Seq<Seq<u8>> {
    moves.map_values(|s: String| encode_utf8(s@))
}

/// The move a text names when it reads as a legal move of `pos`.
pub open spec fn legal_text(pos: Position, t: Seq<u8>) -> Option<Move> {
    match parse_uci(t) {
        Some(m) => if legal_moves(pos).contains(m) {
            Some(m)
        } else {
            None
        },
        None => None,
    }
}

/// Plays the texts from `pos`: the position reached and the keys of the
/// positions after each move played. A text that is not a legal move is
/// passed over; the play stops at a move counter's limit (65535), where
/// one more move would overflow it.
pub open spec fn play_texts(pos: Position, ts: Seq<Seq<u8>>) -> (Position, Seq<u64>)
    decreases ts.len(),
{
    if ts.len() == 0 || !(pos.halfmove < 0xffff && pos.fullmove < 0xffff) {
        (pos, seq![])
    } else {
        match legal_text(pos, ts[0]) {
            Some(m) => {
                let next = after(pos, m);
                let rest = play_texts(next, ts.drop_first());
                (rest.0, seq![key_of(next)] + rest.1)
            },
            None => play_texts(pos, ts.drop_first()),
        }
    }
}

/// Is `m` among `ms`?
fn contains_move(ms: &Vec<Move>, m: Move) -> (r: bool)
    ensures
        r == ms@.contains(m),
{
    let mut i: usize = 0;
    while i < ms.len()
        invariant
            i <= ms@.len(),
            forall|j: int| 0 <= j < i ==> ms@[j] != m,
        decreases ms@.len() - i,
    {
        if ms[i] == m {
            return true;
        }
        i = i + 1;
    }
    false
}

/// Plays the moves given as text from `b` (see `play_texts`); returns the
/// key of `b` followed by the keys of the positions reached.
pub fn play_uci_moves(b: &mut Board, moves: &Vec<String>) -> (keys: Vec<u64>)
    requires
        perft_ok(*old(b), 0),
    ensures
        perft_ok(*final(b), 0),
        final(b)@ == play_texts(old(b)@, texts(moves@)).0,
        keys@ == seq![old(b).key] + play_texts(old(b)@, texts(moves@)).1,
{
    let ghost b0 = *b;
    let ghost ts = texts(moves@);
    let ghost target = play_texts(b0@, ts);
    let mut keys: Vec<u64> = Vec::new();
    keys.push(b.key);
    let n = moves.len();
    assert(ts.subrange(0, n as int) =~= ts);
    assert(keys@ =~= seq![b0.key]);
    let mut i: usize = 0;
    while i < n && b.halfmove < 0xffff && b.fullmove < 0xffff
        invariant
            n == moves@.len(),
            ts == texts(moves@),
            ts.len() == n,
            target == play_texts(b0@, ts),
            i <= n,
            perft_ok(*b, 0),
            play_texts(b@, ts.subrange(i as int, n as int)).0 == target.0,
            keys@ + play_texts(b@, ts.subrange(i as int, n as int)).1 == seq![b0.key] + target.1,
        decreases n - i,
    {
        let ghost rest = ts.subrange(i as int, n as int);
        assert(rest[0] == ts[i as int]);
        assert(rest.drop_first() =~= ts.subrange(i as int + 1, n as int));
        let text = moves[i].as_str();
        assert(text.spec_bytes() == ts[i as int]);
        match Move::from_uci(text) {
            Some(m) => {
                let legal = b.gen_legal();
                if contains_move(&legal, m) {
                    let ghost pos = b@;
                    proof {
                        lemma_pseudo_fit(*b);
                        lemma_filter_fit(pos, pseudo_moves(pos));
                        let j = choose|j: int| 0 <= j < legal@.len() && legal@[j] == m;
                        assert(move_fits(pos, legal@[j]));
                        lemma_after_keeps(pos, m);
                    }
                    b.make(m);
                    let ghost before = keys@;
                    keys.push(b.key);
                    proof {
                        assert(b@ == after(pos, m));
                        assert(b.key == key_of(b@));
                        assert(keys@ + play_texts(b@, ts.subrange(i as int + 1, n as int)).1 =~= before + (
                        seq![key_of(b@)] + play_texts(b@, ts.subrange(i as int + 1, n as int)).1));
                    }
                }
            },
            None => {},
        }
        i = i + 1;
    }
    proof {
        assert(play_texts(b@, ts.subrange(i as int, n as int)) == (b@, Seq::<u64>::empty()));
        assert(keys@ + Seq::<u64>::empty() =~= keys@);
    }
    keys
}

/// How a game ended, for White.
#[derive(Clone, Copy, PartialEq, Eq, Debug, Structural)]
pub enum Outcome {
    WhiteWins,
    Draw,
    BlackWins,
}

/// Why a game ended.
#[derive(Clone, Copy, PartialEq, Eq, Debug, Structural)]
pub enum EndReason {
    Mate,
    Stalemate,
    FiftyMoves,
    Insufficient,
    ThreeFold,
    MaxPlies,
}

/// The end of the game at `pos`, checked in this order: no legal move
/// (mate when in check, else stalemate), fifty moves without capture or
/// pawn move, insufficient material, the position reached a third time
/// (`keys` holds the keys of the game so far), `plies` at the limit.
pub open spec fn game_end(pos: Position, keys: Seq<u64>, plies: int, max_plies: int) -> Option<
    (Outcome, EndReason),
> {
    if legal_moves(pos).len() == 0 {
        if is_attacked(pos.sq, pos.king[pos.stm as int] as int, 1 - pos.stm) {
            Some(
                (
                    if pos.stm == WHITE {
                        Outcome::BlackWins
                    } else {
                        Outcome::WhiteWins
                    },
                    EndReason::Mate,
                ),
            )
        } else {
            Some((Outcome::Draw, EndReason::Stalemate))
        }
    } else if pos.halfmove >= 100 {
        Some((Outcome::Draw, EndReason::FiftyMoves))
    } else if insufficient(pos.sq) {
        Some((Outcome::Draw, EndReason::Insufficient))
    } else if occurrences(keys, key_of(pos)) >= 3 {
        Some((Outcome::Draw, EndReason::ThreeFold))
    } else if plies >= max_plies {
        Some((Outcome::Draw, EndReason::MaxPlies))
    } else {
        None
    }
}

/// Has the game ended at `b` (see `game_end`)?
pub fn game_end_check(b: &mut Board, keys: &Vec<u64>, plies: u32, max_plies: u32) -> (r: Option<
    (Outcome, EndReason),
>)
    requires
        can_make_all(*old(b)),
    ensures
        r == game_end(old(b)@, keys@, plies as int, max_plies as int),
        *final(b) == *old(b),
{
    if !b.has_legal_move() {
        if b.in_check() {
            let winner = if b.stm == WHITE {
                Outcome::BlackWins
            } else {
                Outcome::WhiteWins
            };
            return Some((winner, EndReason::Mate));
        }
        return Some((Outcome::Draw, EndReason::Stalemate));
    }
    if b.halfmove >= 100 {
        return Some((Outcome::Draw, EndReason::FiftyMoves));
    }
    if b.is_insufficient_material() {
        return Some((Outcome::Draw, EndReason::Insufficient));
    }
    if key_count(keys, b.key) >= 3 {
        return Some((Outcome::Draw, EndReason::ThreeFold));
    }
    if plies >= max_plies {
        return Some((Outcome::Draw, EndReason::MaxPlies));
    }
    None
}

/// The adjudication run: the sign of the last decisive scores and how many
/// plies in a row they have kept it.
#[derive(Clone, Copy, PartialEq, Eq, Debug, Structural)]
pub struct Adjudication {
    pub sign: i32,
    pub run: i32,
}

pub open spec fn signum(x: int) -> int {
    if x > 0 {
        1
    } else if x < 0 {
        -1
    } else {
        0
    }
}

pub open spec fn abs(x: int) -> int {
    if x < 0 {
        -x
    } else {
        x
    }
}

/// The run after a ply scored `score` (for White): a decisive score (at
/// least `limit` in size) of the run's sign extends it, one of the other
/// sign starts a new run, any other score ends it.
pub open spec fn next_run(a: Adjudication, score: int, limit: int) -> Adjudication {
    if abs(score) >= limit && signum(score) == a.sign {
        Adjudication { sign: a.sign, run: (a.run + 1) as i32 }
    } else if abs(score) >= limit {
        Adjudication { sign: signum(score) as i32, run: 1 }
    } else {
        Adjudication { sign: 0, run: 0 }
    }
}

/// Updates the run with the score of a ply (see `next_run`); once the run
/// reaches `plies` the game is adjudicated to the side the sign favours.
pub fn adjudicate(a: Adjudication, score_white: i32, limit: i32, plies: i32) -> (r: (Adjudication, Option<Outcome>))
    requires
        score_white != i32::MIN,
        a.run < i32::MAX,
    ensures
        r.0 == next_run(a, score_white as int, limit as int),
        r.1 == (if r.0.run >= plies {
            Some(
                if r.0.sign > 0 {
                    Outcome::WhiteWins
                } else {
                    Outcome::BlackWins
                },
            )
        } else {
            None
        }),
{
    let sign: i32 = if score_white > 0 {
        1
    } else if score_white < 0 {
        -1
    } else {
        0
    };
    let size: i32 = if score_white < 0 {
        -score_white
    } else {
        score_white
    };
    let next = if size >= limit && sign == a.sign {
        Adjudication { sign: a.sign, run: a.run + 1 }
    } else if size >= limit {
        Adjudication { sign, run: 1 }
    } else {
        Adjudication { sign: 0, run: 0 }
    };
    if next.run >= plies {
        (next, Some(if next.sign > 0 { Outcome::WhiteWins } else { Outcome::BlackWins }))
    } else {
        (next, None)
    }
}

/// The line the table holds from `pos`: `first`, then at each position
/// reached the best move the table gives for it, for as long as the move is
/// legal, at most `n` moves; it stops at a move counter's limit (65535).
pub open spec fn pv_line(t: Tt, pos: Position, first: Option<Move>, n: int) -> Seq<Move>
    decreases n,
{
    if n <= 0 || !(pos.halfmove < 0xffff && pos.fullmove < 0xffff) {
        seq![]
    } else {
        match first {
            Some(m) => if legal_moves(pos).contains(m) {
                let next = after(pos, m);
                let hint = match t.probe_spec(key_of(next)) {
                    Some(e) => e.3,
                    None => None,
                };
                seq![m] + pv_line(t, next, hint, n - 1)
            } else {
                seq![]
            },
            None => seq![],
        }
    }
}

/// The principal variation from the table, as move texts (see `pv_line`).
pub fn principal_variation(tt: &Tt, b: &Board, first: Option<Move>, depth: i32) -> (out: Vec<String>)
    requires
        tt.wf(),
        perft_ok(*b, 0),
    ensures
        out@.len() == pv_line(*tt, b@, first, depth as int).len(),
        forall|i: int| 0 <= i < out@.len() ==> #[trigger] out@[i]@ == uci_text(pv_line(*tt, b@, first, depth as int)[i]),
{
    let ghost line = pv_line(*tt, b@, first, depth as int);
    let mut out: Vec<String> = Vec::new();
    let mut work = *b;
    let mut mv = first;
    let mut i: i32 = 0;
    let mut done = false;
    let ghost mut played: Seq<Move> = seq![];
    while !done && i < depth && work.halfmove < 0xffff && work.fullmove < 0xffff
        invariant
            tt.wf(),
            line == pv_line(*tt, b@, first, depth as int),
            perft_ok(work, 0),
            0 <= i,
            i <= depth || i == 0,
            done ==> pv_line(*tt, work@, mv, depth - i) == Seq::<Move>::empty(),
            played + pv_line(*tt, work@, mv, depth - i) == line,
            out@.len() == played.len(),
            forall|j: int| 0 <= j < out@.len() ==> #[trigger] out@[j]@ == uci_text(played[j]),
        decreases depth - i + (if done { 0int } else { 1int }),
    {
        match mv {
            Some(m) => {
                let legal = work.gen_legal();
                if contains_move(&legal, m) {
                    let ghost pos = work@;
                    proof {
                        lemma_pseudo_fit(work);
                        lemma_filter_fit(pos, pseudo_moves(pos));
                        let j = choose|j: int| 0 <= j < legal@.len() && legal@[j] == m;
                        assert(move_fits(pos, legal@[j]));
                        lemma_after_keeps(pos, m);
                    }
                    let text = m.uci();
                    out.push(text);
                    work.make(m);
                    let hint = match tt.probe(work.key) {
                        Some(e) => e.3,
                        None => None,
                    };
                    proof {
                        assert(work@ == after(pos, m));
                        assert(pv_line(*tt, pos, Some(m), depth - i) == seq![m] + pv_line(*tt, work@, hint, depth - i - 1));
                        assert(played.push(m) + pv_line(*tt, work@, hint, depth - i - 1) =~= played + (seq![m]
                            + pv_line(*tt, work@, hint, depth - i - 1)));
                        played = played.push(m);
                    }
                    mv = hint;
                    i = i + 1;
                } else {
                    done = true;
                }
            },
            None => {
                done = true;
            },
        }
    }
    proof {
        assert(pv_line(*tt, work@, mv, depth - i) == Seq::<Move>::empty());
        assert(played + Seq::<Move>::empty() =~= played);
    }
    out
}

/// Plays `n` random legal moves from `pos`, each picked from the legal
/// moves by the next number of the stream with state `st` modulo their
/// count: the position reached and the keys after each move, or none when a
/// position without legal moves comes first; and the stream state after.
#[verifier::opaque]
pub open spec fn random_line(pos: Position, st: u64, n: nat) -> (Option<(Position, Seq<u64>)>, u64)
    decreases n,
{
    if n == 0 {
        (Some((pos, seq![])), st)
    } else {
        let ms = legal_moves(pos);
        if ms.len() == 0 {
            (None, st)
        } else {
            let (r, st2) = spec_splitmix(st);
            let next = after(pos, ms[r as int % ms.len() as int]);
            let rest = random_line(next, st2, (n - 1) as nat);
            (
                match rest.0 {
                    Some((p, ks)) => Some((p, seq![key_of(next)] + ks)),
                    None => None,
                },
                rest.1,
            )
        }
    }
}

/// The position a random line ends in.
pub open spec fn line_end(r: Option<(Position, Seq<u64>)>) -> Position {
    match r {
        Some((p, _ks)) => p,
        None => arbitrary(),
    }
}

/// The keys of the positions of a random line.
pub open spec fn line_keys(r: Option<(Position, Seq<u64>)>) -> Seq<u64> {
    match r {
        Some((_p, ks)) => ks,
        None => seq![],
    }
}

/// One move of a random line: the line from `pos` is the move to `next`
/// followed by the line from `next`.
proof fn lemma_random_step(pos: Position, st: u64, n: nat, next: Position, st2: u64)
    requires
        n >= 1,
        legal_moves(pos).len() > 0,
        st2 == spec_splitmix(st).1,
        next == after(pos, legal_moves(pos)[spec_splitmix(st).0 as int % legal_moves(pos).len() as int]),
    ensures
        random_line(pos, st, n).1 == random_line(next, st2, (n - 1) as nat).1,
        (random_line(pos, st, n).0 is Some) == (random_line(next, st2, (n - 1) as nat).0 is Some),
        random_line(next, st2, (n - 1) as nat).0 is Some ==> line_end(random_line(pos, st, n).0) == line_end(
            random_line(next, st2, (n - 1) as nat).0,
        ) && line_keys(random_line(pos, st, n).0) == seq![key_of(next)] + line_keys(
            random_line(next, st2, (n - 1) as nat).0,
        ),
{
    reveal(random_line);
}

/// A random line of no move, and one that meets a position without legal
/// moves.
proof fn lemma_random_ends(pos: Position, st: u64, n: nat)
    ensures
        n == 0 ==> random_line(pos, st, n) == (Some((pos, Seq::<u64>::empty())), st),
        n >= 1 && legal_moves(pos).len() == 0 ==> random_line(pos, st, n) == (
            None::<(Position, Seq<u64>)>,
            st,
        ),
{
    reveal(random_line);
}

/// Plays `n` random legal moves (see `random_line`); `false` when a
/// position without legal moves was reached first (the board then stands
/// there).
pub fn random_plies(b: &mut Board, rng: &mut Rng, n: u64, keys: &mut Vec<u64>) -> (ok: bool)
    requires
        perft_ok(*old(b), n as int),
    ensures
        final(rng).0 == random_line(old(b)@, old(rng).0, n as nat).1,
        ok == random_line(old(b)@, old(rng).0, n as nat).0 is Some,
        ok ==> final(b)@ == line_end(random_line(old(b)@, old(rng).0, n as nat).0),
        ok ==> final(keys)@ == old(keys)@ + line_keys(random_line(old(b)@, old(rng).0, n as nat).0),
{
    let ghost b0 = *b;
    let ghost r0 = rng.0;
    let ghost k0 = keys@;
    let ghost target = random_line(b0@, r0, n as nat);
    let mut i: u64 = 0;
    while i < n
        invariant
            i <= n,
            perft_ok(*b, (n - i) as int),
            target == random_line(b0@, r0, n as nat),
            b0 == *old(b),
            r0 == old(rng).0,
            k0 == old(keys)@,
            random_line(b@, rng.0, (n - i) as nat).1 == target.1,
            (random_line(b@, rng.0, (n - i) as nat).0 is Some) == (target.0 is Some),
            random_line(b@, rng.0, (n - i) as nat).0 is Some ==> line_end(random_line(b@, rng.0, (n - i) as nat).0)
                == line_end(target.0) && keys@ + line_keys(random_line(b@, rng.0, (n - i) as nat).0) == k0 + line_keys(
                target.0,
            ),
        decreases n - i,
    {
        let ghost pos = b@;
        let ghost st = rng.0;
        let ms = b.gen_legal();
        if ms.len() == 0 {
            proof {
                lemma_random_ends(pos, st, (n - i) as nat);
            }
            return false;
        }
        proof {
            lemma_pseudo_fit(*b);
            lemma_filter_fit(pos, pseudo_moves(pos));
        }
        let k = rng.below(ms.len());
        let m = ms[k];
        proof {
            assert(move_fits(pos, ms@[k as int]));
            lemma_after_keeps(pos, m);
        }
        b.make(m);
        let ghost before = keys@;
        keys.push(b.key);
        proof {
            assert(b@ == after(pos, m));
            assert(b.key == key_of(b@));
            lemma_random_step(pos, st, (n - i) as nat, b@, rng.0);
            let rest = random_line(b@, rng.0, (n - i - 1) as nat);
            if rest.0 is Some {
                assert(keys@ + line_keys(rest.0) =~= before + (seq![key_of(b@)] + line_keys(rest.0)));
            }
        }
        i = i + 1;
    }
    proof {
        lemma_random_ends(b@, rng.0, 0);
        assert(keys@ + Seq::<u64>::empty() =~= keys@);
    }
    true
}

} // verus!
