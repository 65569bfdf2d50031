//! NNUE inference: perspective network (768 -> 128) x 2 -> 1 with eight
//! output buckets by piece count, SCReLU activation, output scale 400.
//! Accumulators hold 16-bit sums and, like the output layer, compute with
//! wrapping (two's complement) arithmetic, as the network's integer
//! inference is defined.

use vstd::prelude::*;
use vstd::wrapping::{i16_specs, i32_specs};
use crate::bits::{bit, lemma_bit_test, popcount, popcount_upto, lemma_bits_remove, lemma_bits_insert};
use crate::board::{
    Board, Move, Position, EMPTY, WHITE, PAWN, ROOK, pc, pt, ptype, pcolor, piece, make_piece, file_of,
    valid_piece, squares_valid, colored,
};
use crate::makemove::{
    move_ok, after, moving, captured, capture_sq, placed, is_ep_capture, castles_king_side,
    castles_queen_side,
};

verus! {

pub const HIDDEN: usize = 128;
pub const NUM_BUCKETS: usize = 8;
pub const QA: i32 = 255;
pub const QB: i32 = 64;
pub const SCALE: i32 = 400;

/// Number of little-endian 16-bit words of a network file: feature
/// weights (768 x 128), feature biases (128), output weights (8 x 256),
/// output biases (8).
pub const NET_WORDS: usize = 100_488;

/// Network weights.
pub struct Net {
    /// Feature weights, one row of `HIDDEN` per feature.
    pub fw: Vec<[i16; 128]>,
    /// Feature biases.
    pub fb: [i16; 128],
    /// Output weights per bucket: own perspective first, then the other.
    pub ow: [[i32; 256]; 8],
    /// Output bias per bucket.
    pub ob: [i32; 8],
}

/// Two perspective accumulators: White's, then Black's.
pub type Acc = [[i16; 128]; 2];

impl Net {
    /// 768 feature rows; output weights and biases are 16-bit values.
    pub open spec fn wf(&self) -> bool {
        &&& self.fw@.len() == 768
        &&& forall|b: int, w: int| 0 <= b < 8 && 0 <= w < 256 ==> -0x8000 <= #[trigger] self.ow[b][w] <= 0x7fff
        &&& forall|b: int| 0 <= b < 8 ==> -0x8000 <= #[trigger] self.ob[b] <= 0x7fff
    }
}

/// Little-endian 16-bit word `i` of `raw`.
pub open spec fn word(raw: Seq<u8>, i: int) -> i16 {
    ((raw[2 * i] as int + 256 * raw[2 * i + 1] as int) as u16) as i16
}

/// The network stored in `raw` (see `NET_WORDS` for the layout).
pub open spec fn net_from(raw: Seq<u8>, n: Net) -> bool {
    &&& n.fw@.len() == 768
    &&& forall|f: int, h: int| 0 <= f < 768 && 0 <= h < 128 ==> #[trigger] n.fw@[f][h] == word(raw, f * 128 + h)
    &&& forall|h: int| 0 <= h < 128 ==> #[trigger] n.fb[h] == word(raw, 98304 + h)
    &&& forall|b: int, w: int| 0 <= b < 8 && 0 <= w < 256 ==> #[trigger] n.ow[b][w] == word(raw, 98432 + b * 256 + w) as i32
    &&& forall|b: int| 0 <= b < 8 ==> #[trigger] n.ob[b] == word(raw, 100480 + b) as i32
}

/// Little-endian 16-bit word `i` of `raw`.
pub fn i16_at(raw: &[u8], i: usize) -> (v: i16)
    requires
        2 * i + 1 < raw@.len(),
    ensures
        v == word(raw@, i as int),
{
    let n = raw.len();
    let lo = raw[2 * i] as u16;
    let hi = raw[2 * i + 1] as u16;
    assert(lo | (hi << 8u16) == lo + 256 * hi) by (bit_vector)
        requires
            lo < 256,
            hi < 256,
    ;
    (lo | (hi << 8)) as i16
}

impl Net {
    /// Reads a network from its file bytes.
    pub fn from_bytes(raw: &[u8]) -> (n: Net)
        requires
            raw@.len() >= 2 * NET_WORDS,
        ensures
            net_from(raw@, n),
            n.wf(),
    {
        let mut fw: Vec<[i16; 128]> = Vec::new();
        let mut f: usize = 0;
        while f < 768
            invariant
                f <= 768,
                raw@.len() >= 2 * NET_WORDS,
                fw@.len() == f,
                forall|g: int, h: int| 0 <= g < f && 0 <= h < 128 ==> #[trigger] fw@[g][h] == word(raw@, g * 128 + h),
            decreases 768 - f,
        {
            let mut row = [0i16; 128];
            let mut h: usize = 0;
            while h < 128
                invariant
                    h <= 128,
                    f < 768,
                    raw@.len() >= 2 * NET_WORDS,
                    forall|k: int| 0 <= k < h ==> #[trigger] row[k] == word(raw@, f * 128 + k),
                decreases 128 - h,
            {
                assert(f * 128 + h < 98304) by (nonlinear_arith)
                    requires
                        f < 768,
                        h < 128,
                ;
                row[h] = i16_at(raw, f * 128 + h);
                h = h + 1;
            }
            fw.push(row);
            f = f + 1;
        }
        let mut fb = [0i16; 128];
        let mut h: usize = 0;
        while h < 128
            invariant
                h <= 128,
                raw@.len() >= 2 * NET_WORDS,
                forall|k: int| 0 <= k < h ==> #[trigger] fb[k] == word(raw@, 98304 + k),
            decreases 128 - h,
        {
            fb[h] = i16_at(raw, 98304 + h);
            h = h + 1;
        }
        let mut ow = [[0i32; 256]; 8];
        let mut b: usize = 0;
        while b < 8
            invariant
                b <= 8,
                raw@.len() >= 2 * NET_WORDS,
                forall|c: int, w: int| 0 <= c < b && 0 <= w < 256 ==> #[trigger] ow[c][w] == word(raw@, 98432 + c * 256 + w) as i32,
            decreases 8 - b,
        {
            let mut row = [0i32; 256];
            let mut w: usize = 0;
            while w < 256
                invariant
                    w <= 256,
                    b < 8,
                    raw@.len() >= 2 * NET_WORDS,
                    forall|k: int| 0 <= k < w ==> #[trigger] row[k] == word(raw@, 98432 + b * 256 + k) as i32,
                decreases 256 - w,
            {
                row[w] = i16_at(raw, 98432 + b * 256 + w) as i32;
                w = w + 1;
            }
            ow[b] = row;
            b = b + 1;
        }
        let mut ob = [0i32; 8];
        let mut b: usize = 0;
        while b < 8
            invariant
                b <= 8,
                raw@.len() >= 2 * NET_WORDS,
                forall|c: int| 0 <= c < b ==> #[trigger] ob[c] == word(raw@, 100480 + c) as i32,
            decreases 8 - b,
        {
            ob[b] = i16_at(raw, 100480 + b) as i32;
            b = b + 1;
        }
        Net { fw, fb, ow, ob }
    }
}

/// Chess768 feature of a piece of colour `pcol` and type index `pt0`
/// (type - 1) on square `sq`, seen from perspective `persp`: own pieces
/// first, squares mirrored vertically for Black.
pub open spec fn feature(persp: u8, pcol: u8, pt0: u8, sq: u8) -> int {
    let c: int = if pcol == persp { 0 } else { 1 };
    let s: int = if persp == WHITE { sq as int } else { (sq ^ 56u8) as int };
    64 * (6 * c + pt0 as int) + s
}

/// Feature index (see `feature`).
pub fn feat(persp: u8, pcol: u8, pt0: u8, sq: u8) -> (i: usize)
    ensures
        i == feature(persp, pcol, pt0, sq),
{
    let c: usize = if pcol == persp { 0 } else { 1 };
    let s = if persp == WHITE { sq } else { sq ^ 56 };
    64 * (6 * c + pt0 as usize) + s as usize
}

/// King square of a perspective, mirrored for Black.
pub open spec fn oriented_king(persp: u8, kings: [u8; 2]) -> u8 {
    if persp == WHITE { kings[0] } else { kings[1] ^ 56u8 }
}

pub fn ksq_or(persp: u8, kings: [u8; 2]) -> (k: u8)
    ensures
        k == oriented_king(persp, kings),
{
    if persp == WHITE { kings[0] } else { kings[1] ^ 56 }
}

/// Row of the feature weights for a feature and a king square: with a
/// single king bucket, the feature itself.
pub fn kb_index(base: usize, ksq_oriented: u8) -> (i: usize)
    ensures
        i == base,
{
    base
}

proof fn lemma_mirror(sq: u8)
    requires
        sq < 64,
    ensures
        (sq ^ 56u8) < 64,
{
    crate::bits::lemma_u8_coords(sq);
}

/// Perspective accumulator `a` with the row of feature `f` added (`add`)
/// or taken away, entry by entry with 16-bit wrapping.
pub open spec fn row_step(a: Seq<i16>, row: Seq<i16>, add: bool) -> Seq<i16> {
    Seq::new(
        128,
        |h: int|
            if add {
                i16_specs::wrapping_add(a[h], row[h])
            } else {
                i16_specs::wrapping_sub(a[h], row[h])
            },
    )
}

/// The accumulators after adding (`add`) or removing a piece of colour
/// `pcol`, type index `pt0` on `sq`, in both perspectives.
pub open spec fn piece_step(net: &Net, a: Seq<Seq<i16>>, pcol: u8, pt0: u8, sq: u8, add: bool) -> Seq<Seq<i16>> {
    seq![
        row_step(a[0], net.fw@[feature(0, pcol, pt0, sq)]@, add),
        row_step(a[1], net.fw@[feature(1, pcol, pt0, sq)]@, add),
    ]
}

/// The view of the accumulators as sequences.
pub open spec fn acc_view(acc: Acc) -> Seq<Seq<i16>> {
    seq![acc[0]@, acc[1]@]
}

fn update_piece(net: &Net, acc: &mut Acc, pcol: u8, pt0: u8, sq: u8, kings: [u8; 2], add: bool)
    requires
        net.wf(),
        pt0 < 6,
        sq < 64,
    ensures
        acc_view(*final(acc)) == piece_step(net, acc_view(*old(acc)), pcol, pt0, sq, add),
{
    let mut persp: u8 = 0;
    let ghost a0 = *old(acc);
    while persp < 2
        invariant
            persp <= 2,
            net.wf(),
            pt0 < 6,
            sq < 64,
            forall|p: int| 0 <= p < persp ==> #[trigger] acc[p]@ == piece_step(net, acc_view(a0), pcol, pt0, sq, add)[p],
            forall|p: int| persp <= p < 2 ==> #[trigger] acc[p]@ == a0[p]@,
        decreases 2 - persp,
    {
        proof {
            lemma_mirror(sq);
        }
        let fi = kb_index(feat(persp, pcol, pt0, sq), ksq_or(persp, kings));
        let row = net.fw[fi];
        let mut a = acc[persp as usize];
        let ghost a_start = a;
        let mut h: usize = 0;
        while h < 128
            invariant
                h <= 128,
                forall|k: int| 0 <= k < h ==> #[trigger] a[k] == (if add {
                    i16_specs::wrapping_add(a_start[k], row[k])
                } else {
                    i16_specs::wrapping_sub(a_start[k], row[k])
                }),
                forall|k: int| h <= k < 128 ==> #[trigger] a[k] == a_start[k],
            decreases 128 - h,
        {
            if add {
                a[h] = a[h].wrapping_add(row[h]);
            } else {
                a[h] = a[h].wrapping_sub(row[h]);
            }
            h = h + 1;
        }
        assert(a@ =~= row_step(a_start@, row@, add));
        acc[persp as usize] = a;
        persp = persp + 1;
    }
    assert(acc_view(*acc) =~= piece_step(net, acc_view(a0), pcol, pt0, sq, add));
}

/// Adds a piece of colour `pcol`, type index `pt0` on `sq` to both
/// perspective accumulators.
pub fn add_piece(net: &Net, acc: &mut Acc, pcol: u8, pt0: u8, sq: u8, kings: [u8; 2])
    requires
        net.wf(),
        pt0 < 6,
        sq < 64,
    ensures
        acc_view(*final(acc)) == piece_step(net, acc_view(*old(acc)), pcol, pt0, sq, true),
{
    update_piece(net, acc, pcol, pt0, sq, kings, true);
}

/// Removes a piece of colour `pcol`, type index `pt0` on `sq` from both
/// perspective accumulators.
pub fn sub_piece(net: &Net, acc: &mut Acc, pcol: u8, pt0: u8, sq: u8, kings: [u8; 2])
    requires
        net.wf(),
        pt0 < 6,
        sq < 64,
    ensures
        acc_view(*final(acc)) == piece_step(net, acc_view(*old(acc)), pcol, pt0, sq, false),
{
    update_piece(net, acc, pcol, pt0, sq, kings, false);
}

/// The accumulators of the feature biases plus the pieces on the squares
/// of `occ` below `n`, added square by square from a1.
pub open spec fn acc_upto(net: &Net, sq: Seq<u8>, occ: u64, n: int) -> Seq<Seq<i16>>
    decreases n,
{
    if n <= 0 {
        seq![net.fb@, net.fb@]
    } else if bit(occ, n - 1) {
        let a = acc_upto(net, sq, occ, n - 1);
        let p = sq[n - 1];
        seq![
            row_step(a[0], net.fw@[feature(0, (p as int / 8) as u8, (pt(p) - 1) as u8, (n - 1) as u8)]@, true),
            row_step(a[1], net.fw@[feature(1, (p as int / 8) as u8, (pt(p) - 1) as u8, (n - 1) as u8)]@, true),
        ]
    } else {
        acc_upto(net, sq, occ, n - 1)
    }
}

/// Every square of `occ` holds a piece of one of the six types.
pub open spec fn occupied_ok(sq: Seq<u8>, occ: u64) -> bool {
    forall|s: int| 0 <= s < 64 && #[trigger] bit(occ, s) ==> 1 <= pt(sq[s]) <= 6
}

/// Fresh accumulators for the pieces on the squares of `occ_all`.
pub fn refresh(net: &Net, sq: &[u8; 64], occ_all: u64, kings: [u8; 2]) -> (acc: Acc)
    requires
        net.wf(),
        occupied_ok(sq@, occ_all),
    ensures
        acc_view(acc) == acc_upto(net, sq@, occ_all, 64),
{
    let mut acc: Acc = [net.fb, net.fb];
    assert(acc_view(acc) =~= acc_upto(net, sq@, occ_all, 0));
    let mut s: u8 = 0;
    while s < 64
        invariant
            s <= 64,
            net.wf(),
            occupied_ok(sq@, occ_all),
            acc_view(acc) == acc_upto(net, sq@, occ_all, s as int),
        decreases 64 - s,
    {
        proof {
            lemma_bit_test(occ_all, s as u64);
        }
        if occ_all & (1u64 << s) != 0 {
            let p = sq[s as usize];
            assert(1 <= pt(sq@[s as int]) <= 6);
            let t = ptype(p);
            add_piece(net, &mut acc, pcolor(p), t - 1, s, kings);
        }
        s = s + 1;
    }
    acc
}

/// Output bucket for a piece count: (count - 2) / 4, at least 0.
pub open spec fn bucket(piece_count: u32) -> int {
    if piece_count < 2 { 0 } else { (piece_count - 2) / 4 }
}

pub fn bucket_of(piece_count: u32) -> (b: usize)
    ensures
        b == bucket(piece_count),
{
    let divisor: usize = (32 + NUM_BUCKETS - 1) / NUM_BUCKETS;
    (piece_count as usize).saturating_sub(2) / divisor
}

/// SCReLU: the square of `x` clamped to 0..=255.
pub open spec fn screlu_spec(x: i32) -> i32 {
    let y: int = if x < 0 { 0 } else if x > QA { QA as int } else { x as int };
    (y * y) as i32
}

pub fn screlu(x: i32) -> (r: i32)
    ensures
        r == screlu_spec(x),
        0 <= r <= 65025,
{
    let y = if x < 0 { 0 } else if x > QA { QA } else { x };
    assert(0 <= y * y <= 65025) by (nonlinear_arith)
        requires
            0 <= y <= 255,
    ;
    y * y
}

/// Wrapping sum over the hidden units below `n` of the activations of both
/// perspectives times their output weights of bucket `b`.
pub open spec fn out_sum(us: Seq<i16>, them: Seq<i16>, ow: Seq<i32>, n: int) -> i32
    decreases n,
{
    if n <= 0 {
        0
    } else {
        let prev = out_sum(us, them, ow, n - 1);
        let a = i32_specs::wrapping_add(prev, i32_specs::wrapping_mul(screlu_spec(us[n - 1] as i32), ow[n - 1]));
        i32_specs::wrapping_add(a, i32_specs::wrapping_mul(screlu_spec(them[n - 1] as i32), ow[128 + n - 1]))
    }
}

/// The output in centipawns for the side with accumulator `us`: the
/// weighted sum floored by QA, plus the bias, scaled by 400 (wrapping) and
/// floored by QA * QB.
pub open spec fn output(us: Seq<i16>, them: Seq<i16>, net: &Net, b: int) -> int {
    let o = out_sum(us, them, net.ow[b]@, 128) as int / (QA as int) + net.ob[b] as int;
    i32_specs::wrapping_mul(o as i32, SCALE) as int / ((QA * QB) as int)
}

/// Output layer (see `output`).
pub fn reduce_out(us: &[i16; 128], them: &[i16; 128], net: &Net, b: usize) -> (r: i32)
    requires
        net.wf(),
        b < 8,
    ensures
        r == output(us@, them@, net, b as int),
{
    let ow = &net.ow[b];
    let mut out: i32 = 0;
    let mut h: usize = 0;
    while h < 128
        invariant
            h <= 128,
            out == out_sum(us@, them@, ow@, h as int),
        decreases 128 - h,
    {
        out = out.wrapping_add(screlu(us[h] as i32).wrapping_mul(ow[h]));
        out = out.wrapping_add(screlu(them[h] as i32).wrapping_mul(ow[128 + h]));
        h = h + 1;
    }
    let q = match out.checked_div_euclid(QA) {
        Some(q) => q,
        None => {
            assert(false);
            0
        },
    };
    assert(-0x8000 <= net.ob[b as int] <= 0x7fff);
    let o = q + net.ob[b];
    match o.wrapping_mul(SCALE).checked_div_euclid(QA * QB) {
        Some(v) => v,
        None => {
            assert(false);
            0
        },
    }
}

/// Evaluation in centipawns for the side to move `stm` from ready
/// accumulators, with the output bucket of `piece_count`.
pub fn eval_acc(net: &Net, acc: &Acc, stm: u8, piece_count: u32) -> (r: i32)
    requires
        net.wf(),
        stm <= 1,
        piece_count <= 33,
    ensures
        r == output(acc[stm as int]@, acc[1 - stm]@, net, bucket(piece_count)),
{
    let us = &acc[stm as usize];
    let them = &acc[(1 - stm) as usize];
    reduce_out(us, them, net, bucket_of(piece_count))
}

/// NNUE evaluation of a board in centipawns for the side to move.
pub fn evaluate(net: &Net, b: &Board) -> (r: i32)
    requires
        net.wf(),
        b.wf(),
        popcount(b.occ[0] | b.occ[1]) <= 33,
    ensures
        r == output(
            acc_upto(net, b.sq@, b.occ[0] | b.occ[1], 64)[b.stm as int],
            acc_upto(net, b.sq@, b.occ[0] | b.occ[1], 64)[1 - b.stm],
            net,
            bucket(popcount(b.occ[0] | b.occ[1]) as u32),
        ),
{
    let occ_all = b.occ[0] | b.occ[1];
    proof {
        crate::bits::lemma_bits_ops(b.occ@[0], b.occ@[1]);
        assert forall|s: int| 0 <= s < 64 && #[trigger] bit(occ_all, s) implies 1 <= pt(b.sq@[s]) <= 6 by {
            assert(crate::board::valid_piece(b.sq@[s]));
        }
    }
    let acc = refresh(net, &b.sq, occ_all, b.king);
    let n = crate::bits::count_ones(occ_all);
    eval_acc(net, &acc, b.stm, n)
}

/// An integer taken to 16-bit two's complement.
pub open spec fn wrap16(x: int) -> int {
    (x + 0x8000) % 0x1_0000 - 0x8000
}

proof fn lemma_wrap16_add(x: i16, y: i16)
    ensures
        i16_specs::wrapping_add(x, y) as int == wrap16(x + y),
        i16_specs::wrapping_sub(x, y) as int == wrap16(x - y),
{
}

proof fn lemma_wrap16_wrap(a: int, b: int)
    ensures
        wrap16(wrap16(a) + b) == wrap16(a + b),
        -0x8000 <= wrap16(a) <= 0x7fff,
{
    vstd::arithmetic::div_mod::lemma_add_mod_noop_right(b, a + 0x8000, 0x1_0000);
    vstd::arithmetic::div_mod::lemma_mod_bound(a + 0x8000, 0x1_0000);
    assert(wrap16(a) + b + 0x8000 == b + (a + 0x8000) % 0x1_0000);
    assert(a + b + 0x8000 == b + (a + 0x8000));
}

/// Weight of hidden unit `h` in perspective `p` of the piece on square `s`.
pub open spec fn piece_weight(net: &Net, sq: Seq<u8>, p: int, h: int, s: int) -> int {
    let c = sq[s];
    net.fw@[feature(p as u8, (c as int / 8) as u8, (pt(c) - 1) as u8, s as u8)][h] as int
}

/// Sum of the weights of hidden unit `h` in perspective `p` over the
/// squares of `occ` below `n`.
pub open spec fn weight_sum(net: &Net, sq: Seq<u8>, occ: u64, p: int, h: int, n: int) -> int
    decreases n,
{
    if n <= 0 {
        0
    } else {
        weight_sum(net, sq, occ, p, h, n - 1) + if bit(occ, n - 1) { piece_weight(net, sq, p, h, n - 1) } else { 0 }
    }
}

/// Every accumulator entry is the 16-bit wrap of the bias plus the weights
/// of the pieces added.
proof fn lemma_acc_sum(net: &Net, sq: Seq<u8>, occ: u64, n: int)
    requires
        0 <= n <= 64,
        net.wf(),
        occupied_ok(sq, occ),
    ensures
        acc_upto(net, sq, occ, n).len() == 2,
        forall|p: int, h: int| 0 <= p < 2 && 0 <= h < 128 ==> #[trigger] acc_upto(net, sq, occ, n)[p][h] as int
            == wrap16(net.fb[h] + weight_sum(net, sq, occ, p, h, n)),
        forall|p: int| 0 <= p < 2 ==> #[trigger] acc_upto(net, sq, occ, n)[p].len() == 128,
    decreases n,
{
    if n == 0 {
        assert forall|p: int, h: int| 0 <= p < 2 && 0 <= h < 128 implies #[trigger] acc_upto(net, sq, occ, n)[p][h] as int
            == wrap16(net.fb[h] + weight_sum(net, sq, occ, p, h, n)) by {
            assert(acc_upto(net, sq, occ, 0)[p] == net.fb@);
        }
    } else {
        lemma_acc_sum(net, sq, occ, n - 1);
        if bit(occ, n - 1) {
            assert forall|p: int, h: int| 0 <= p < 2 && 0 <= h < 128 implies #[trigger] acc_upto(net, sq, occ, n)[p][h] as int
                == wrap16(net.fb[h] + weight_sum(net, sq, occ, p, h, n)) by {
                let a = acc_upto(net, sq, occ, n - 1)[p][h];
                let w = piece_weight(net, sq, p, h, n - 1);
                let c = sq[n - 1];
                assert(1 <= pt(c) <= 6);
                let f = feature(p as u8, (c as int / 8) as u8, (pt(c) - 1) as u8, (n - 1) as u8);
                crate::bits::lemma_u8_coords((n - 1) as u8);
                assert(0 <= f < 768);
                lemma_wrap16_add(a, net.fw@[f][h]);
                lemma_wrap16_wrap(net.fb[h] + weight_sum(net, sq, occ, p, h, n - 1), w);
                if p == 0 {
                    assert(acc_upto(net, sq, occ, n)[0][h] == i16_specs::wrapping_add(a, net.fw@[f][h]));
                } else {
                    assert(acc_upto(net, sq, occ, n)[1][h] == i16_specs::wrapping_add(a, net.fw@[f][h]));
                }
            }
        }
    }
}

/// Putting `piece` on the empty square `s` adds its weights to every sum;
/// the other squares keep theirs.
proof fn lemma_weight_sum_put(net: &Net, sq: Seq<u8>, occ: u64, p: int, h: int, n: int, s: int, piece: u8, occ2: u64)
    requires
        0 <= n <= 64,
        0 <= s < 64,
        sq.len() == 64,
        !bit(occ, s),
        bit(occ2, s),
        forall|i: int| 0 <= i < 64 && i != s ==> #[trigger] bit(occ2, i) == bit(occ, i),
    ensures
        weight_sum(net, sq.update(s, piece), occ2, p, h, n) == weight_sum(net, sq, occ, p, h, n) + if s < n {
            piece_weight(net, sq.update(s, piece), p, h, s)
        } else {
            0
        },
    decreases n,
{
    if n > 0 {
        lemma_weight_sum_put(net, sq, occ, p, h, n - 1, s, piece, occ2);
        if n - 1 != s {
            assert(sq.update(s, piece)[n - 1] == sq[n - 1]);
        }
    }
}

/// Adding a piece on an empty square to the accumulators of a board gives
/// the accumulators of the board with that piece: the incremental update
/// agrees with a fresh `refresh`.
pub proof fn lemma_add_piece_refresh(net: &Net, sq: Seq<u8>, occ: u64, s: u8, piece: u8, occ2: u64)
    requires
        net.wf(),
        sq.len() == 64,
        occupied_ok(sq, occ),
        s < 64,
        1 <= pt(piece) <= 6,
        !bit(occ, s as int),
        bit(occ2, s as int),
        forall|i: int| 0 <= i < 64 && i != s ==> #[trigger] bit(occ2, i) == bit(occ, i),
    ensures
        piece_step(net, acc_upto(net, sq, occ, 64), (piece as int / 8) as u8, (pt(piece) - 1) as u8, s, true)
            == acc_upto(net, sq.update(s as int, piece), occ2, 64),
{
    let sq2 = sq.update(s as int, piece);
    assert(occupied_ok(sq2, occ2)) by {
        assert forall|i: int| 0 <= i < 64 && #[trigger] bit(occ2, i) implies 1 <= pt(sq2[i]) <= 6 by {
            if i != s {
                assert(bit(occ, i));
            }
        }
    }
    lemma_acc_sum(net, sq, occ, 64);
    lemma_acc_sum(net, sq2, occ2, 64);
    let a = acc_upto(net, sq, occ, 64);
    let b = acc_upto(net, sq2, occ2, 64);
    let st = piece_step(net, a, (piece as int / 8) as u8, (pt(piece) - 1) as u8, s, true);
    crate::bits::lemma_u8_coords(s);
    assert forall|p: int| 0 <= p < 2 implies #[trigger] st[p] =~= b[p] by {
        let f = feature(p as u8, (piece as int / 8) as u8, (pt(piece) - 1) as u8, s);
        assert(0 <= f < 768);
        assert forall|h: int| 0 <= h < 128 implies #[trigger] st[p][h] == b[p][h] by {
            lemma_weight_sum_put(net, sq, occ, p, h, 64, s as int, piece, occ2);
            lemma_wrap16_add(a[p][h], net.fw@[f][h]);
            lemma_wrap16_wrap(net.fb[h] + weight_sum(net, sq, occ, p, h, 64), net.fw@[f][h] as int);
            assert(piece_weight(net, sq2, p, h, s as int) == net.fw@[f][h]);
            if p == 0 {
                assert(st[0][h] == i16_specs::wrapping_add(a[0][h], net.fw@[f][h]));
            } else {
                assert(st[1][h] == i16_specs::wrapping_add(a[1][h], net.fw@[f][h]));
            }
        }
    }
    assert(st =~= b);
}

/// Removing the piece on square `s` from the accumulators of a board gives
/// the accumulators of the board without it: the incremental update agrees
/// with a fresh `refresh`.
pub proof fn lemma_sub_piece_refresh(net: &Net, sq: Seq<u8>, occ: u64, s: u8, occ2: u64)
    requires
        net.wf(),
        sq.len() == 64,
        occupied_ok(sq, occ),
        s < 64,
        bit(occ, s as int),
        !bit(occ2, s as int),
        forall|i: int| 0 <= i < 64 && i != s ==> #[trigger] bit(occ2, i) == bit(occ, i),
    ensures
        piece_step(net, acc_upto(net, sq, occ, 64), (sq[s as int] as int / 8) as u8, (pt(sq[s as int]) - 1) as u8, s, false)
            == acc_upto(net, sq, occ2, 64),
{
    let piece = sq[s as int];
    assert(1 <= pt(piece) <= 6);
    assert(occupied_ok(sq, occ2)) by {
        assert forall|i: int| 0 <= i < 64 && #[trigger] bit(occ2, i) implies 1 <= pt(sq[i]) <= 6 by {
            assert(bit(occ, i));
        }
    }
    assert(sq.update(s as int, piece) =~= sq);
    lemma_acc_sum(net, sq, occ, 64);
    lemma_acc_sum(net, sq, occ2, 64);
    let a = acc_upto(net, sq, occ, 64);
    let b = acc_upto(net, sq, occ2, 64);
    let st = piece_step(net, a, (piece as int / 8) as u8, (pt(piece) - 1) as u8, s, false);
    crate::bits::lemma_u8_coords(s);
    assert forall|p: int| 0 <= p < 2 implies #[trigger] st[p] =~= b[p] by {
        let f = feature(p as u8, (piece as int / 8) as u8, (pt(piece) - 1) as u8, s);
        assert(0 <= f < 768);
        assert forall|h: int| 0 <= h < 128 implies #[trigger] st[p][h] == b[p][h] by {
            lemma_weight_sum_put(net, sq, occ2, p, h, 64, s as int, piece, occ);
            let w = net.fw@[f][h] as int;
            assert(piece_weight(net, sq, p, h, s as int) == w);
            lemma_wrap16_add(a[p][h], net.fw@[f][h]);
            lemma_wrap16_wrap(net.fb[h] + weight_sum(net, sq, occ, p, h, 64), -w);
            assert(net.fb[h] + weight_sum(net, sq, occ, p, h, 64) - w == net.fb[h] + weight_sum(net, sq, occ2, p, h, 64));
            if p == 0 {
                assert(st[0][h] == i16_specs::wrapping_sub(a[0][h], net.fw@[f][h]));
            } else {
                assert(st[1][h] == i16_specs::wrapping_sub(a[1][h], net.fw@[f][h]));
            }
        }
    }
    assert(st =~= b);
}

/// `occ` holds exactly the occupied squares of `sq`.
pub open spec fn occupancy_of(sq: Seq<u8>, occ: u64) -> bool {
    forall|s: int| 0 <= s < 64 ==> #[trigger] bit(occ, s) == (sq[s] != EMPTY)
}

/// The accumulators after move `m` of `pos`, updated piece by piece: the
/// taken piece leaves its square, the moving piece leaves `from`, the
/// placed piece arrives on `to`, and on castling the rook moves.
pub open spec fn move_update(net: &Net, a: Seq<Seq<i16>>, pos: Position, m: Move) -> Seq<Seq<i16>> {
    let us = pos.stm;
    let p = moving(pos, m);
    let cap = captured(pos, m);
    let a1 = if cap != EMPTY {
        piece_step(net, a, (cap as int / 8) as u8, (pt(cap) - 1) as u8, capture_sq(pos, m) as u8, false)
    } else {
        a
    };
    let a2 = piece_step(net, a1, us, (pt(p) - 1) as u8, m.from, false);
    let a3 = piece_step(net, a2, us, (pt(placed(pos, m)) - 1) as u8, m.to, true);
    if castles_king_side(pos, m) {
        piece_step(net, piece_step(net, a3, us, 3, (m.to + 1) as u8, false), us, 3, (m.to - 1) as u8, true)
    } else if castles_queen_side(pos, m) {
        piece_step(net, piece_step(net, a3, us, 3, (m.to - 2) as u8, false), us, 3, (m.to + 1) as u8, true)
    } else {
        a3
    }
}

/// The accumulators read only the occupied squares.
proof fn lemma_acc_agree(net: &Net, sq1: Seq<u8>, sq2: Seq<u8>, occ1: u64, occ2: u64, n: int)
    requires
        0 <= n <= 64,
        forall|s: int| 0 <= s < 64 ==> #[trigger] bit(occ1, s) == bit(occ2, s),
        forall|s: int| 0 <= s < 64 && #[trigger] bit(occ1, s) ==> sq1[s] == sq2[s],
    ensures
        acc_upto(net, sq1, occ1, n) == acc_upto(net, sq2, occ2, n),
    decreases n,
{
    if n > 0 {
        lemma_acc_agree(net, sq1, sq2, occ1, occ2, n - 1);
        assert(bit(occ1, n - 1) == bit(occ2, n - 1));
    }
}

/// Updating the accumulators of a board piece by piece for a move gives the
/// accumulators of the board after the move: the incremental update agrees
/// with a fresh `refresh`.
pub proof fn lemma_move_update_refresh(net: &Net, pos: Position, m: Move, occ: u64, occ_after: u64)
    requires
        net.wf(),
        squares_valid(pos.sq),
        pos.stm <= 1,
        move_ok(pos, m),
        occupancy_of(pos.sq, occ),
        occupancy_of(after(pos, m).sq, occ_after),
    ensures
        move_update(net, acc_upto(net, pos.sq, occ, 64), pos, m) == acc_upto(net, after(pos, m).sq, occ_after, 64),
{
    let sq = pos.sq;
    let us = pos.stm;
    let from = m.from;
    let to = m.to;
    let p = moving(pos, m);
    let cap = captured(pos, m);
    let cs = capture_sq(pos, m);
    let pl = placed(pos, m);
    assert(valid_piece(sq[from as int]));
    assert(occupied_ok(sq, occ)) by {
        assert forall|i: int| 0 <= i < 64 && #[trigger] bit(occ, i) implies 1 <= pt(sq[i]) <= 6 by {
            assert(valid_piece(sq[i]));
        }
    }
    if is_ep_capture(pos, m) {
        assert(cs % 8 == to % 8);
        assert(cs != from as int);
    }
    assert(0 <= cs < 64);
    // the taken piece leaves
    let occ1: u64 = if cap != EMPTY { occ & !(1u64 << (cs as u64)) } else { occ };
    let a0 = acc_upto(net, sq, occ, 64);
    let a1 = if cap != EMPTY {
        piece_step(net, a0, (cap as int / 8) as u8, (pt(cap) - 1) as u8, cs as u8, false)
    } else {
        a0
    };
    if cap != EMPTY {
        lemma_bits_remove(occ, cs as u64);
        lemma_sub_piece_refresh(net, sq, occ, cs as u8, occ1);
    }
    assert(a1 == acc_upto(net, sq, occ1, 64));
    assert(occupied_ok(sq, occ1)) by {
        if cap != EMPTY {
            lemma_bits_remove(occ, cs as u64);
        }
    }
    // the moving piece leaves
    let occ2: u64 = occ1 & !(1u64 << (from as u64));
    lemma_bits_remove(occ1, from as u64);
    if cap != EMPTY {
        lemma_bits_remove(occ, cs as u64);
    }
    assert(bit(occ1, from as int));
    lemma_sub_piece_refresh(net, sq, occ1, from, occ2);
    let a2 = piece_step(net, a1, us, (pt(p) - 1) as u8, from, false);
    assert(pc(p) == us as int);
    assert(a2 == acc_upto(net, sq, occ2, 64));
    assert(occupied_ok(sq, occ2));
    // the placed piece arrives
    let sq3 = sq.update(to as int, pl);
    let occ3: u64 = occ2 | (1u64 << (to as u64));
    lemma_bits_insert(occ2, to as u64);
    assert(!bit(occ2, to as int));
    assert(1 <= pt(pl) <= 6 && pc(pl) == us as int);
    lemma_add_piece_refresh(net, sq, occ2, to, pl, occ3);
    let a3 = piece_step(net, a2, us, (pt(pl) - 1) as u8, to, true);
    assert(a3 == acc_upto(net, sq3, occ3, 64));
    assert(occupied_ok(sq3, occ3)) by {
        assert forall|i: int| 0 <= i < 64 && #[trigger] bit(occ3, i) implies 1 <= pt(sq3[i]) <= 6 by {
            if i != to as int {
                assert(bit(occ2, i));
            }
        }
    }
    let rook = piece(us as int, ROOK as int);
    if castles_king_side(pos, m) || castles_queen_side(pos, m) {
        let rf: int = if castles_king_side(pos, m) { to + 1 } else { to - 2 };
        let rt: int = if castles_king_side(pos, m) { to - 1 } else { to + 1 };
        assert(cs == to as int);
        let occ4: u64 = occ3 & !(1u64 << (rf as u64));
        lemma_bits_remove(occ3, rf as u64);
        assert(bit(occ3, rf));
        assert(sq3[rf] == rook);
        lemma_sub_piece_refresh(net, sq3, occ3, rf as u8, occ4);
        let a4 = piece_step(net, a3, us, 3, rf as u8, false);
        assert(a4 == acc_upto(net, sq3, occ4, 64));
        let sq5 = sq3.update(rt, rook);
        let occ5: u64 = occ4 | (1u64 << (rt as u64));
        lemma_bits_insert(occ4, rt as u64);
        assert(!bit(occ4, rt));
        assert(occupied_ok(sq3, occ4)) by {
            assert forall|i: int| 0 <= i < 64 && #[trigger] bit(occ4, i) implies 1 <= pt(sq3[i]) <= 6 by {
                assert(bit(occ3, i));
            }
        }
        lemma_add_piece_refresh(net, sq3, occ4, rt as u8, rook, occ5);
        let a5 = piece_step(net, a4, us, 3, rt as u8, true);
        assert(a5 == acc_upto(net, sq5, occ5, 64));
        let sa = after(pos, m).sq;
        assert forall|i: int| 0 <= i < 64 implies #[trigger] bit(occ5, i) == bit(occ_after, i) by {
            assert(bit(occ_after, i) == (sa[i] != EMPTY));
            assert(bit(occ, i) == (sq[i] != EMPTY));
        }
        assert forall|i: int| 0 <= i < 64 && #[trigger] bit(occ5, i) implies sq5[i] == sa[i] by {
            assert(bit(occ, i) == (sq[i] != EMPTY));
        }
        lemma_acc_agree(net, sq5, sa, occ5, occ_after, 64);
    } else {
        let sa = after(pos, m).sq;
        assert forall|i: int| 0 <= i < 64 implies #[trigger] bit(occ3, i) == bit(occ_after, i) by {
            assert(bit(occ_after, i) == (sa[i] != EMPTY));
            assert(bit(occ, i) == (sq[i] != EMPTY));
        }
        assert forall|i: int| 0 <= i < 64 && #[trigger] bit(occ3, i) implies sq3[i] == sa[i] by {
            assert(bit(occ, i) == (sq[i] != EMPTY));
        }
        lemma_acc_agree(net, sq3, sa, occ3, occ_after, 64);
    }
}

/// Updates the accumulators for move `m` of board `b`, the board before
/// the move (see `move_update`; `lemma_move_update_refresh`: the result is
/// the accumulators of the board after the move).
pub fn update_for_move(net: &Net, acc: &mut Acc, b: &Board, m: Move)
    requires
        net.wf(),
        b.wf(),
        move_ok(b@, m),
    ensures
        acc_view(*final(acc)) == move_update(net, acc_view(*old(acc)), b@, m),
{
    let ghost pos = b@;
    let us = b.stm;
    let from = m.from;
    let to = m.to;
    let p = b.sq[from as usize];
    assert(valid_piece(p));
    let is_ep = ptype(p) == PAWN && (match b.ep {
        Some(e) => e == to,
        None => false,
    }) && b.sq[to as usize] == EMPTY && file_of(from) != file_of(to);
    assert(is_ep == is_ep_capture(pos, m));
    let cs: u8 = if is_ep {
        if us == WHITE {
            to - 8
        } else {
            to + 8
        }
    } else {
        to
    };
    assert(cs as int == capture_sq(pos, m));
    let cap = b.sq[cs as usize];
    if cap != EMPTY {
        assert(valid_piece(cap));
        sub_piece(net, acc, pcolor(cap), ptype(cap) - 1, cs, b.king);
    }
    sub_piece(net, acc, us, ptype(p) - 1, from, b.king);
    let pl = if m.promo != 0 {
        make_piece(us, m.promo)
    } else {
        p
    };
    assert(pl == placed(pos, m));
    add_piece(net, acc, us, ptype(pl) - 1, to, b.king);
    if ptype(p) == 6 && to as u16 == from as u16 + 2 {
        sub_piece(net, acc, us, ROOK - 1, to + 1, b.king);
        add_piece(net, acc, us, ROOK - 1, to - 1, b.king);
    } else if ptype(p) == 6 && to as u16 + 2 == from as u16 {
        sub_piece(net, acc, us, ROOK - 1, to - 2, b.king);
        add_piece(net, acc, us, ROOK - 1, to + 1, b.king);
    }
}


/// The square `s` seen from the other side: the same file, the mirrored
/// rank.
pub open spec fn flip_sq(s: int) -> int {
    8 * (7 - s / 8) + s % 8
}

/// A piece code with its colour swapped (an empty square stays empty).
pub open spec fn swap_colour(p: u8) -> u8 {
    if p == EMPTY {
        EMPTY
    } else {
        piece(1 - pc(p), pt(p))
    }
}

/// `f` is `b` seen from the other side: every piece mirrored across the
/// middle rank with its colour swapped, and the other side to move.
pub open spec fn colour_flipped(b: Board, f: Board) -> bool {
    &&& f.stm == 1 - b.stm
    &&& forall|s: int| 0 <= s < 64 ==> #[trigger] f.sq@[flip_sq(s)] == swap_colour(b.sq@[s])
}

/// `g(0) + ... + g(n - 1)`.
pub open spec fn sum_upto(g: spec_fn(int) -> int, n: int) -> int
    decreases n,
{
    if n <= 0 {
        0
    } else {
        sum_upto(g, n - 1) + g(n - 1)
    }
}

/// The eight squares of rank `r`, summed.
spec fn rank_sum(g: spec_fn(int) -> int, r: int) -> int {
    g(8 * r) + g(8 * r + 1) + g(8 * r + 2) + g(8 * r + 3) + g(8 * r + 4) + g(8 * r + 5) + g(8 * r + 6) + g(
        8 * r + 7,
    )
}

proof fn lemma_sum_rank(g: spec_fn(int) -> int, r: int)
    requires
        0 <= r,
    ensures
        sum_upto(g, 8 * r + 8) == sum_upto(g, 8 * r) + rank_sum(g, r),
{
    reveal_with_fuel(sum_upto, 9);
}

/// A sum over the board is the same summed from the other side.
pub proof fn lemma_sum_flip(g: spec_fn(int) -> int)
    ensures
        sum_upto(g, 64) == sum_upto(|s: int| g(flip_sq(s)), 64),
{
    let h = |s: int| g(flip_sq(s));
    lemma_sum_rank(g, 0);
    lemma_sum_rank(g, 1);
    lemma_sum_rank(g, 2);
    lemma_sum_rank(g, 3);
    lemma_sum_rank(g, 4);
    lemma_sum_rank(g, 5);
    lemma_sum_rank(g, 6);
    lemma_sum_rank(g, 7);
    lemma_sum_rank(h, 0);
    lemma_sum_rank(h, 1);
    lemma_sum_rank(h, 2);
    lemma_sum_rank(h, 3);
    lemma_sum_rank(h, 4);
    lemma_sum_rank(h, 5);
    lemma_sum_rank(h, 6);
    lemma_sum_rank(h, 7);
    assert(sum_upto(g, 0) == 0 && sum_upto(h, 0) == 0);
    assert(rank_sum(h, 0) == rank_sum(g, 7));
    assert(rank_sum(h, 1) == rank_sum(g, 6));
    assert(rank_sum(h, 2) == rank_sum(g, 5));
    assert(rank_sum(h, 3) == rank_sum(g, 4));
    assert(rank_sum(h, 4) == rank_sum(g, 3));
    assert(rank_sum(h, 5) == rank_sum(g, 2));
    assert(rank_sum(h, 6) == rank_sum(g, 1));
    assert(rank_sum(h, 7) == rank_sum(g, 0));
}

/// Sums of functions that agree below `n` agree.
pub proof fn lemma_sum_agree(g1: spec_fn(int) -> int, g2: spec_fn(int) -> int, n: int)
    requires
        forall|s: int| 0 <= s < n ==> #[trigger] g1(s) == g2(s),
    ensures
        sum_upto(g1, n) == sum_upto(g2, n),
    decreases n,
{
    if n > 0 {
        lemma_sum_agree(g1, g2, n - 1);
    }
}

/// The weight of hidden unit `h` in perspective `p` of the square `s`
/// (0 when `s` is not in `occ`).
spec fn weight_term(net: &Net, sq: Seq<u8>, occ: u64, p: int, h: int) -> spec_fn(int) -> int {
    |s: int| if bit(occ, s) { piece_weight(net, sq, p, h, s) } else { 0 }
}

proof fn lemma_weight_sum_is_sum(net: &Net, sq: Seq<u8>, occ: u64, p: int, h: int, n: int)
    ensures
        weight_sum(net, sq, occ, p, h, n) == sum_upto(weight_term(net, sq, occ, p, h), n),
    decreases n,
{
    if n > 0 {
        lemma_weight_sum_is_sum(net, sq, occ, p, h, n - 1);
    }
}

/// 1 for a square of `x`, else 0.
spec fn bit_term(x: u64) -> spec_fn(int) -> int {
    |s: int| if bit(x, s) { 1int } else { 0int }
}

proof fn lemma_popcount_is_sum(x: u64, n: int)
    ensures
        popcount_upto(x, n) == sum_upto(bit_term(x), n),
    decreases n,
{
    if n > 0 {
        lemma_popcount_is_sum(x, n - 1);
    }
}

/// XOR with 56 mirrors the rank of a square.
proof fn lemma_xor56(s: u8)
    requires
        s < 64,
    ensures
        (s ^ 56u8) as int == flip_sq(s as int),
        flip_sq(flip_sq(s as int)) == s as int,
        0 <= flip_sq(s as int) < 64,
{
    assert((s ^ 56u8) == 8 * (7 - s / 8) + s % 8) by (bit_vector)
        requires
            s < 64,
    ;
}

/// The network scores a position and the same position seen from the
/// other side (pieces mirrored, colours swapped, the other side to move)
/// alike: the side to move gets the same evaluation.
pub proof fn lemma_eval_colour_symmetric(net: &Net, b: Board, f: Board)
    requires
        net.wf(),
        b.wf(),
        f.wf(),
        colour_flipped(b, f),
    ensures
        output(
            acc_upto(net, f.sq@, f.occ[0] | f.occ[1], 64)[f.stm as int],
            acc_upto(net, f.sq@, f.occ[0] | f.occ[1], 64)[1 - f.stm],
            net,
            bucket(popcount(f.occ[0] | f.occ[1]) as u32),
        ) == output(
            acc_upto(net, b.sq@, b.occ[0] | b.occ[1], 64)[b.stm as int],
            acc_upto(net, b.sq@, b.occ[0] | b.occ[1], 64)[1 - b.stm],
            net,
            bucket(popcount(b.occ[0] | b.occ[1]) as u32),
        ),
{
    let ob = b.occ[0] | b.occ[1];
    let of = f.occ[0] | f.occ[1];
    crate::bits::lemma_bits_ops(b.occ@[0], b.occ@[1]);
    crate::bits::lemma_bits_ops(f.occ@[0], f.occ@[1]);
    assert forall|s: int| 0 <= s < 64 implies #[trigger] bit(ob, s) == (b.sq@[s] != EMPTY) by {
        assert(valid_piece(b.sq@[s]));
        assert(bit(b.occ@[0], s) == colored(b.sq@[s], 0));
        assert(bit(b.occ@[1], s) == colored(b.sq@[s], 1));
    }
    assert forall|s: int| 0 <= s < 64 implies #[trigger] bit(of, s) == (f.sq@[s] != EMPTY) by {
        assert(valid_piece(f.sq@[s]));
        assert(bit(f.occ@[0], s) == colored(f.sq@[s], 0));
        assert(bit(f.occ@[1], s) == colored(f.sq@[s], 1));
    }
    assert forall|s: int| 0 <= s < 64 implies 1 <= pt(#[trigger] b.sq@[s]) <= 6 || b.sq@[s] == EMPTY by {
        assert(valid_piece(b.sq@[s]));
    }
    assert(occupied_ok(b.sq@, ob)) by {
        assert forall|s: int| 0 <= s < 64 && #[trigger] bit(ob, s) implies 1 <= pt(b.sq@[s]) <= 6 by {
            assert(valid_piece(b.sq@[s]));
        }
    }
    assert(occupied_ok(f.sq@, of)) by {
        assert forall|s: int| 0 <= s < 64 && #[trigger] bit(of, s) implies 1 <= pt(f.sq@[s]) <= 6 by {
            assert(valid_piece(f.sq@[s]));
        }
    }
    // the occupancy mirrored
    assert forall|s: int| 0 <= s < 64 implies #[trigger] bit(of, flip_sq(s)) == bit(ob, s) by {
        lemma_xor56(s as u8);
        let c = b.sq@[s];
        assert(valid_piece(c));
        assert(f.sq@[flip_sq(s)] == swap_colour(c));
    }
    // the piece weights mirrored, perspective swapped
    assert forall|p: int, h: int, s: int| 0 <= p < 2 && 0 <= h < 128 && 0 <= s < 64 implies #[trigger]
        weight_term(net, f.sq@, of, 1 - p, h)(flip_sq(s)) == weight_term(net, b.sq@, ob, p, h)(s) by {
        lemma_xor56(s as u8);
        let c = b.sq@[s];
        assert(valid_piece(c));
        let cf = f.sq@[flip_sq(s)];
        assert(cf == swap_colour(c));
        if bit(ob, s) {
            assert(c != EMPTY);
            assert(pc(cf) == 1 - pc(c));
            assert(pt(cf) == pt(c));
            let fs = flip_sq(s) as u8;
            lemma_xor56(fs);
            assert(feature((1 - p) as u8, (cf as int / 8) as u8, (pt(cf) - 1) as u8, fs) == feature(
                p as u8,
                (c as int / 8) as u8,
                (pt(c) - 1) as u8,
                s as u8,
            ));
        }
    }
    assert forall|p: int, h: int| 0 <= p < 2 && 0 <= h < 128 implies #[trigger] weight_sum(net, f.sq@, of, 1 - p, h, 64)
        == weight_sum(net, b.sq@, ob, p, h, 64) by {
        let tf = weight_term(net, f.sq@, of, 1 - p, h);
        let tb = weight_term(net, b.sq@, ob, p, h);
        lemma_weight_sum_is_sum(net, f.sq@, of, 1 - p, h, 64);
        lemma_weight_sum_is_sum(net, b.sq@, ob, p, h, 64);
        lemma_sum_flip(tf);
        lemma_sum_agree(|s: int| tf(flip_sq(s)), tb, 64);
    }
    // the accumulators of each perspective, swapped
    lemma_acc_sum(net, b.sq@, ob, 64);
    lemma_acc_sum(net, f.sq@, of, 64);
    let ab = acc_upto(net, b.sq@, ob, 64);
    let af = acc_upto(net, f.sq@, of, 64);
    assert forall|p: int| 0 <= p < 2 implies #[trigger] af[1 - p] =~= ab[p] by {
        assert forall|h: int| 0 <= h < 128 implies af[1 - p][h] == ab[p][h] by {
            assert(weight_sum(net, f.sq@, of, 1 - p, h, 64) == weight_sum(net, b.sq@, ob, p, h, 64));
        }
    }
    assert(af[f.stm as int] == ab[b.stm as int]) by {
        assert(af[1 - b.stm as int] =~= ab[b.stm as int]);
    }
    assert(af[1 - f.stm] == ab[1 - b.stm]) by {
        assert(af[1 - (1 - b.stm)] =~= ab[1 - b.stm]);
    }
    // the piece count
    lemma_popcount_is_sum(of, 64);
    lemma_popcount_is_sum(ob, 64);
    lemma_sum_flip(bit_term(of));
    let pf = |s: int| bit_term(of)(flip_sq(s));
    assert forall|s: int| 0 <= s < 64 implies #[trigger] pf(s) == bit_term(ob)(s) by {
        assert(bit(of, flip_sq(s)) == bit(ob, s));
    }
    lemma_sum_agree(pf, bit_term(ob), 64);
}

} // verus!
