use neryba::attacks::slider_attacks;
use neryba::board::{make_piece, Board, Move, BLACK, KING, KNIGHT, PAWN, QUEEN, WHITE};
use neryba::eval::{evaluate, manhattan, pawn_structure};
use neryba::features::feature_indices;
use neryba::nnue::{bucket_of, feat, screlu, Net, NET_WORDS};
use neryba::ordering::{apply_bonus, mvv_lva, pack_score, ps_index, unpack_score};
use neryba::rng::Rng;
use neryba::text::parse_u16;
use neryba::zobrist::{
    build_keys, CASTLE_KEYS, CASTLE_SEED, EP_FILE_KEYS, EP_SEED, PIECE_KEYS, PIECE_SEED,
};

const START: &str = "rnbqkbnr/pppppppp/8/8/8/8/PPPPPPPP/RNBQKBNR w KQkq - 0 1";

fn same_board(a: &Board, b: &Board) -> bool {
    a.sq == b.sq
        && a.stm == b.stm
        && a.castling == b.castling
        && a.ep == b.ep
        && a.halfmove == b.halfmove
        && a.fullmove == b.fullmove
        && a.key == b.key
        && a.occ == b.occ
        && a.pieces == b.pieces
        && a.king == b.king
}

#[test]
fn zobrist_tables_follow_their_seeds() {
    assert_eq!(build_keys(PIECE_SEED, 768), PIECE_KEYS.to_vec());
    assert_eq!(build_keys(CASTLE_SEED, 16), CASTLE_KEYS.to_vec());
    assert_eq!(build_keys(EP_SEED, 8), EP_FILE_KEYS.to_vec());
}

#[test]
fn startpos_matches_its_fen() {
    let a = Board::startpos();
    let b = Board::from_fen(START).unwrap();
    assert!(same_board(&a, &b));
    assert_eq!(a.fen(), START);
    assert_eq!(a.to_fen(), START);
}

#[test]
fn fen_errors() {
    assert_eq!(Board::from_fen("8/8 w").err().unwrap(), "bad fen: 8/8 w");
    let bad_piece = "rnbqkbnr/ppppxppp/8/8/8/8/PPPPPPPP/RNBQKBNR w KQkq - 0 1";
    assert_eq!(Board::from_fen(bad_piece).err().unwrap(), "bad piece x");
    let nine = "9/8/8/8/8/8/8/8 w - - 0 1";
    assert_eq!(Board::from_fen(nine).err().unwrap(), "bad piece 9");
    let wide = "rnbqkbnrr/pppppppp/8/8/8/8/PPPPPPPP/RNBQKBNR w KQkq - 0 1";
    assert_eq!(Board::from_fen(wide).err().unwrap(), format!("bad fen board: {wide}"));
    let low = "8/8/8/8/8/8/8/8/K7 w - - 0 1";
    assert_eq!(Board::from_fen(low).err().unwrap(), format!("bad fen board: {low}"));
}

#[test]
fn fen_fields() {
    let b = Board::from_fen("4k3/8/8/3pP3/8/8/8/4K3 w Kq d6 7 33").unwrap();
    assert_eq!(b.stm, WHITE);
    assert_eq!(b.castling, 1 | 8);
    assert_eq!(b.ep, Some(43));
    assert_eq!(b.halfmove, 7);
    assert_eq!(b.fullmove, 33);
    assert_eq!(b.king, [4, 60]);
    let c = Board::from_fen("4k3/8/8/8/8/8/8/4K3 b - - x y").unwrap();
    assert_eq!(c.stm, BLACK);
    assert_eq!(c.halfmove, 0);
    assert_eq!(c.fullmove, 1);
    let d = Board::from_fen("4k3/8/8/8/8/8/8/4K3 w - -").unwrap();
    assert_eq!((d.halfmove, d.fullmove), (0, 1));
    assert_eq!(d.fen(), "4k3/8/8/8/8/8/8/4K3 w - - 0 1");
}

#[test]
fn fen_checked_reports_panicking_text() {
    assert!(Board::from_fen_checked("4k3/8/8/8/8/8/8/4K3 w - z 0 1").is_none());
    assert!(Board::from_fen_checked("4k3/8/8/8/8/8/8/4K3 w - A1 0 1").is_none());
    assert!(Board::from_fen_checked("4k3/8/8/8/8/8/8/4K3 w - e3 0 1").unwrap().is_ok());
}

#[test]
fn uci_moves() {
    assert_eq!(Move::from_uci("e2e4"), Some(Move { from: 12, to: 28, promo: 0 }));
    assert_eq!(Move::from_uci("e7e8q"), Some(Move { from: 52, to: 60, promo: QUEEN }));
    assert_eq!(Move::from_uci("e7e8x"), Some(Move { from: 52, to: 60, promo: 0 }));
    assert_eq!(Move::from_uci("e2"), None);
    assert_eq!(Move::from_uci("i2e4"), None);
    assert_eq!(Move::from_uci("e2e9"), None);
    assert_eq!(Move { from: 48, to: 56, promo: KNIGHT }.uci(), "a7a8n");
    assert_eq!(Move { from: 12, to: 28, promo: 0 }.uci(), "e2e4");
}

#[test]
fn make_unmake_restores() {
    let mut b = Board::from_fen(
        "r3k2r/p1ppqpb1/bn2pnp1/3PN3/1p2P3/2N2Q1p/PPPBBPPP/R3K2R w KQkq - 0 1",
    )
    .unwrap();
    let before = b;
    for m in b.gen_legal() {
        let undo = b.make(m);
        b.unmake(m, undo);
        assert!(same_board(&b, &before));
    }
}

#[test]
fn null_move_restores() {
    let mut b = Board::from_fen("4k3/8/8/3pP3/8/8/8/4K3 w - d6 0 1").unwrap();
    let before = b;
    let saved = b.make_null();
    assert_eq!(b.stm, BLACK);
    assert_eq!(b.ep, None);
    assert_eq!(b.key, b.compute_key());
    b.unmake_null(saved);
    assert!(same_board(&b, &before));
}

#[test]
fn material_tests() {
    let bare = Board::from_fen("4k3/8/8/8/8/8/8/4K3 w - - 0 1").unwrap();
    assert!(bare.is_insufficient_material());
    assert!(!bare.has_non_pawn_material());
    let knight = Board::from_fen("4k3/8/8/8/8/8/8/3NK3 w - - 0 1").unwrap();
    assert!(knight.is_insufficient_material());
    assert!(knight.has_non_pawn_material());
    let two = Board::from_fen("4k3/8/8/8/8/8/8/2NNK3 w - - 0 1").unwrap();
    assert!(!two.is_insufficient_material());
    let pawn = Board::from_fen("4k3/8/8/8/8/8/4P3/4K3 b - - 0 1").unwrap();
    assert!(!pawn.is_insufficient_material());
    assert!(!pawn.has_non_pawn_material());
}

#[test]
fn see_exchanges() {
    let b = Board::from_fen("4k3/8/3p4/4n3/3P4/8/8/4K3 w - - 0 1").unwrap();
    assert_eq!(b.see(Move { from: 27, to: 36, promo: 0 }), 220);
    let free = Board::from_fen("4k3/8/8/4n3/3P4/8/8/4K3 w - - 0 1").unwrap();
    assert_eq!(free.see(Move { from: 27, to: 36, promo: 0 }), 320);
    assert_eq!(free.see(Move { from: 27, to: 35, promo: 0 }), 0);
}

#[test]
fn slider_sets() {
    assert_eq!(slider_attacks(0, 0, false), 0x0101_0101_0101_01FE);
    assert_eq!(slider_attacks(0, 0, true), 0x8040_2010_0804_0200);
    assert_eq!(slider_attacks(0, 1u64 << 2, false), 0x0101_0101_0101_0106);
}

#[test]
fn evaluation_values() {
    assert_eq!(evaluate(&Board::startpos(), None), 0);
    assert_eq!(pawn_structure(0, 0), (0, 0));
    assert_eq!(pawn_structure(1u64 << 28, 0), (3, 37));
    assert_eq!(manhattan(0, 63), 14);
    let up = Board::from_fen("4k3/8/8/8/8/8/8/3QK3 w - - 0 1").unwrap();
    assert!(evaluate(&up, None) > 800);
    let mate = evaluate(&up, Some((30, 8)));
    assert!(mate > 1200 + 936);
}

#[test]
fn score_packing() {
    assert_eq!(pack_score(100_000), 30_000);
    assert_eq!(unpack_score(30_000), 100_000);
    assert_eq!(unpack_score(pack_score(-99_500)), -99_500);
    assert_eq!(unpack_score(pack_score(1234)), 1234);
}

#[test]
fn history_gravity() {
    let mut e = 0;
    apply_bonus(&mut e, 100);
    assert_eq!(e, 100);
    apply_bonus(&mut e, 100);
    assert_eq!(e, 199);
    let mut f = 8192;
    apply_bonus(&mut f, 10_000);
    assert_eq!(f, 8192);
    let mut g = -50;
    apply_bonus(&mut g, -8192);
    assert_eq!(g, -8192);
}

#[test]
fn ordering_indices() {
    assert_eq!(ps_index(make_piece(1, KING), 63), 767);
    assert_eq!(ps_index(make_piece(0, PAWN), 0), 0);
    let b = Board::from_fen("4k3/P7/8/8/8/8/8/4K3 w - - 0 1").unwrap();
    assert_eq!(mvv_lva(&b, Move { from: 48, to: 56, promo: QUEEN }), 900);
    let c = Board::from_fen("4k3/8/3p4/4n3/3P4/8/8/4K3 w - - 0 1").unwrap();
    assert_eq!(mvv_lva(&c, Move { from: 27, to: 36, promo: 0 }), 3100);
}

#[test]
fn splitmix_stream() {
    let mut r = Rng(0);
    assert_eq!(r.next(), 0xe220a8397b1dcdaf);
    assert_eq!(r.0, 0x9e3779b97f4a7c15);
    assert_eq!(r.below(7), 1);
}

#[test]
fn decimal_fields() {
    assert_eq!(parse_u16(&"12".chars().collect()), Some(12));
    assert_eq!(parse_u16(&"+5".chars().collect()), Some(5));
    assert_eq!(parse_u16(&"65535".chars().collect()), Some(65535));
    assert_eq!(parse_u16(&"65536".chars().collect()), None);
    assert_eq!(parse_u16(&"".chars().collect()), None);
    assert_eq!(parse_u16(&"-1".chars().collect()), None);
}

#[test]
fn nnue_small_nets() {
    assert_eq!(bucket_of(32), 7);
    assert_eq!(bucket_of(0), 0);
    assert_eq!(screlu(-5), 0);
    assert_eq!(screlu(300), 65025);
    assert_eq!(screlu(10), 100);
    assert_eq!(feat(1, 1, 0, 8), 48);
    assert_eq!(feat(0, 1, 5, 63), 64 * 11 + 63);
    let mut raw = vec![0u8; 2 * NET_WORDS];
    raw[0] = 0x34;
    raw[1] = 0x12;
    for b in 0..8 {
        raw[2 * (100_480 + b)] = 100;
    }
    let net = Net::from_bytes(&raw);
    assert_eq!(net.fw[0][0], 0x1234);
    assert_eq!(net.ob[7], 100);
    let b = Board::startpos();
    assert_eq!(neryba::nnue::evaluate(&net, &b), 2);
}

#[test]
fn threat_features_sorted() {
    let b = Board::startpos();
    let idx = feature_indices(&b, WHITE);
    assert!(idx.windows(2).all(|w| w[0] < w[1]));
    assert!(idx.contains(&8));
    assert_eq!(idx.iter().filter(|&&i| i < 768).count(), 32);
}

#[test]
fn written_fen_reads_back() {
    for fen in [
        START,
        "r3k2r/p1ppqpb1/bn2pnp1/3PN3/1p2P3/2N2Q1p/PPPBBPPP/R3K2R w KQkq - 0 1",
        "8/2p5/3p4/KP5r/1R3p1k/8/4P1P1/8 w - - 0 1",
        "rnbq1k1r/pp1Pbppp/2p5/8/2B5/8/PPP1NnPP/RNBQK2R w KQ - 1 8",
    ] {
        let mut b = Board::from_fen(fen).unwrap();
        for m in b.gen_legal() {
            let undo = b.make(m);
            let back = Board::from_fen(&b.to_fen()).unwrap();
            assert!(same_board(&back, &b));
            let again = Board::from_fen(&b.fen()).unwrap();
            assert!(same_board(&again, &b));
            b.unmake(m, undo);
        }
    }
}

#[test]
fn fen_round_trip_keeps_all_but_the_king_squares() {
    let mut b = Board::from_fen("4k3/8/8/8/8/8/8/K3K3 w - - 0 1").unwrap();
    let _ = b.make(Move { from: 0, to: 8, promo: 0 });
    assert_eq!(b.king[0], 8);
    let text = b.to_fen();
    let c = Board::from_fen(&text).unwrap();
    assert_eq!(c.to_fen(), text);
    assert_eq!(c.sq, b.sq);
    assert_eq!((c.stm, c.castling, c.ep, c.halfmove, c.fullmove), (b.stm, b.castling, b.ep, b.halfmove, b.fullmove));
    assert_eq!((c.key, c.occ, c.pieces), (b.key, b.occ, b.pieces));
    // the king square read back is the last white king in reading order
    assert_eq!(c.king[0], 4);
}
