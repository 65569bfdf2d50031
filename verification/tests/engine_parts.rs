use neryba::board::{make_piece, Board, Move, BLACK, PAWN, WHITE};
use neryba::game::{
    adjudicate, game_end_check, play_uci_moves, principal_variation, random_plies, Adjudication, EndReason,
    Outcome,
};
use neryba::nnue::{add_piece, refresh, sub_piece, update_for_move, Net, NET_WORDS};
use neryba::ordering::{
    can_order, clear_table, fits_bonus, halve_history, keep_captures, move_order_score, order_moves,
    order_root, packable_score, push_killer, sort_by_capture_value, keep_captures_and_checks,
};
use neryba::protocol::{parse_go, parse_i64, parse_position, score_string, PositionFrom};
use neryba::rng::Rng;
use neryba::tt::{
    bound_flag, draw_score, qtt_cut, tt_cut, TtVerdict, from_tt_fits, is_repetition2, key_count, score_from_tt, score_to_tt, to_tt_fits, Tt, EXACT, LOWER,
    UPPER,
};

fn mv(from: u8, to: u8, promo: u8) -> Move {
    Move { from, to, promo }
}

fn sq(name: &str) -> u8 {
    let b = name.as_bytes();
    (b[1] - b'1') * 8 + (b[0] - b'a')
}

#[test]
fn flat_table_reads_back_what_was_stored() {
    let mut t = Tt::new(true, 4);
    assert_eq!(t.probe(5), None);
    t.store(5, 7, LOWER, 1234, Some(mv(12, 28, 0)));
    assert_eq!(t.probe(5), Some((7, LOWER, 1234, Some(mv(12, 28, 0)))));
    // mate scores survive the 16-bit packing
    t.store(6, 3, EXACT, 99_990, None);
    assert_eq!(t.probe(6), Some((3, EXACT, 99_990, None)));
    t.store(7, 2, UPPER, -99_990, None);
    assert_eq!(t.probe(7), Some((2, UPPER, -99_990, None)));
    // a key with the same low bits replaces the slot
    t.store(5 + 16, 1, EXACT, 10, None);
    assert_eq!(t.probe(5), None);
    assert_eq!(t.probe(21), Some((1, EXACT, 10, None)));
    assert_eq!(t.probe(6), Some((3, EXACT, 99_990, None)));
    // the depth is kept as a byte
    t.store(8, 300, EXACT, 0, None);
    assert_eq!(t.probe(8), Some((44, EXACT, 0, None)));
    t.clear();
    for k in 0..40u64 {
        assert_eq!(t.probe(k), None);
    }
    assert!(!t.over_cap(0));
}

#[test]
fn map_table_reads_back_what_was_stored() {
    let mut t = Tt::new(false, 4);
    t.store(5, 300, LOWER, 123_456, Some(mv(0, 0, 0)));
    t.store(21, 1, EXACT, -7, None);
    assert_eq!(t.probe(5), Some((300, LOWER, 123_456, Some(mv(0, 0, 0)))));
    assert_eq!(t.probe(21), Some((1, EXACT, -7, None)));
    assert_eq!(t.probe(6), None);
    assert!(t.over_cap(1));
    assert!(!t.over_cap(2));
    t.clear();
    assert_eq!(t.probe(5), None);
}

#[test]
fn mate_scores_are_rebased_by_ply() {
    assert_eq!(score_to_tt(99_990, 4), 99_994);
    assert_eq!(score_from_tt(99_994, 4), 99_990);
    assert_eq!(score_to_tt(-99_990, 4), -99_994);
    assert_eq!(score_from_tt(-99_994, 4), -99_990);
    assert_eq!(score_to_tt(150, 4), 150);
    assert_eq!(score_from_tt(-150, 9), -150);
    for s in [-100_000, -99_000, -1, 0, 1, 98_999, 99_000, 100_000] {
        for ply in [0, 1, 7, 63] {
            assert_eq!(score_from_tt(score_to_tt(s, ply), ply), s);
        }
    }
    assert!(from_tt_fits(100_000, 5));
    assert!(!to_tt_fits(i32::MAX, 1));
    assert!(!from_tt_fits(i32::MAX, -1));
    assert!(from_tt_fits(i32::MIN, 1));
    assert!(packable_score(99_000));
    assert!(!packable_score(50_000));
}

#[test]
fn repetitions_are_counted() {
    let keys = vec![1u64, 2, 1, 3, 1];
    assert_eq!(key_count(&keys, 1), 3);
    assert_eq!(key_count(&keys, 4), 0);
    assert!(is_repetition2(&keys, 1));
    assert!(!is_repetition2(&keys, 2));
}

#[test]
fn moves_are_ordered_for_the_search() {
    let b = Board::from_fen("4k3/8/8/3p4/4P3/8/8/4K2R w K - 0 1").unwrap();
    let mut moves = Board::from_fen("4k3/8/8/3p4/4P3/8/8/4K2R w K - 0 1").unwrap().gen_legal();
    let mut history = vec![0i32; 8192];
    let quiet = mv(sq("h1"), sq("h5"), 0);
    history[(sq("h1") as usize) * 64 + sq("h5") as usize] = 500;
    let killer = mv(sq("e1"), sq("f1"), 0);
    let tt_move = Some(mv(sq("h1"), sq("h2"), 0));
    let killers = [Some(killer), None];
    let conthist: Vec<i32> = Vec::new();
    assert!(can_order(&b, &moves, tt_move, killers, &history, &conthist, None));
    assert_eq!(move_order_score(&b, mv(sq("e4"), sq("d5"), 0), tt_move, killers, &history, &conthist, None), 100_000 + 900);
    assert_eq!(move_order_score(&b, quiet, tt_move, killers, &history, &conthist, None), 500);
    let before = moves.clone();
    order_moves(&b, &mut moves, tt_move, killers, &history, &conthist, None);
    assert_eq!(moves.len(), before.len());
    assert_eq!(moves[0], mv(sq("h1"), sq("h2"), 0));
    assert_eq!(moves[1], mv(sq("e4"), sq("d5"), 0));
    assert_eq!(moves[2], killer);
    assert_eq!(moves[3], quiet);
    // the remaining quiet moves score 0 and keep their generation order
    let rest: Vec<Move> = before
        .iter()
        .copied()
        .filter(|m| *m != moves[0] && *m != moves[1] && *m != moves[2] && *m != moves[3])
        .collect();
    assert_eq!(&moves[4..], &rest[..]);
}

#[test]
fn losing_captures_fall_below_the_killers() {
    let fen = "4k3/8/2p5/3p4/8/8/8/3QK3 w - - 0 1";
    let b = Board::from_fen(fen).unwrap();
    let mut moves = Board::from_fen(fen).unwrap().gen_legal();
    let history = vec![0i32; 8192];
    let conthist: Vec<i32> = Vec::new();
    let killer = mv(sq("e1"), sq("e2"), 0);
    let killers = [Some(killer), None];
    let qxd5 = mv(sq("d1"), sq("d5"), 0);
    assert!(moves.contains(&qxd5));
    assert!(can_order(&b, &moves, None, killers, &history, &conthist, None));
    // the queen takes a pawn that a pawn defends: 20_000 + 10 * 100 - 900
    assert_eq!(move_order_score(&b, qxd5, None, killers, &history, &conthist, None), 20_100);
    assert_eq!(move_order_score(&b, killer, None, killers, &history, &conthist, None), 90_000);
    order_moves(&b, &mut moves, None, killers, &history, &conthist, None);
    assert_eq!(moves[0], killer);
    assert_eq!(moves[1], qxd5);
}

#[test]
fn ordering_refuses_tables_of_the_wrong_size() {
    let b = Board::startpos();
    let moves = Board::startpos().gen_legal();
    let short = vec![0i32; 10];
    assert!(!can_order(&b, &moves, None, [None, None], &short, &Vec::new(), None));
    let history = vec![0i32; 8192];
    assert!(!can_order(&b, &moves, None, [None, None], &history, &Vec::new(), Some(3)));
    assert!(can_order(&b, &moves, None, [None, None], &history, &vec![0i32; 768 * 768], Some(3)));
}

#[test]
fn root_and_capture_ordering() {
    let mut b = Board::from_fen("4k3/8/2n5/3p1q2/4P3/8/8/4K2R w K - 0 1").unwrap();
    let all = b.gen_legal();
    let mut caps = all.clone();
    keep_captures(&b, &mut caps);
    assert!(caps.iter().all(|m| b.sq[m.to as usize] != 0));
    assert_eq!(caps.len(), 2);
    sort_by_capture_value(&b, &mut caps);
    // the queen first, then the pawn
    assert_eq!(b.sq[caps[0].to as usize] & 7, 5);
    assert_eq!(b.sq[caps[1].to as usize] & 7, 1);
    let mut root = all.clone();
    let prev = *all.last().unwrap();
    order_root(&b, &mut root, Some(prev));
    assert_eq!(root[0], prev);
    assert_eq!(root.len(), all.len());
    let mut root2 = all.clone();
    order_root(&b, &mut root2, Some(mv(0, 1, 0)));
    assert_eq!(b.sq[root2[0].to as usize] & 7, 5);
}

#[test]
fn uci_moves_are_played_and_keyed() {
    let mut b = Board::startpos();
    let start_key = b.key;
    let moves: Vec<String> = ["e2e4", "e7e5", "zz", "e2e4", "g1f3"].iter().map(|s| s.to_string()).collect();
    let keys = play_uci_moves(&mut b, &moves);
    assert_eq!(keys.len(), 4);
    assert_eq!(keys[0], start_key);
    assert_eq!(*keys.last().unwrap(), b.key);
    let expected = Board::from_fen("rnbqkbnr/pppp1ppp/8/4p3/4P3/5N2/PPPP1PPP/RNBQKB1R b KQkq - 1 2").unwrap();
    assert_eq!(b.fen(), expected.fen());
}

#[test]
fn games_end_by_the_rules() {
    // fool's mate: White is mated
    let mut b = Board::from_fen("rnb1kbnr/pppp1ppp/8/4p3/6Pq/5P2/PPPPP2P/RNBQKBNR w KQkq - 1 3").unwrap();
    let keys = vec![b.key];
    assert_eq!(game_end_check(&mut b, &keys, 0, 400), Some((Outcome::BlackWins, EndReason::Mate)));
    let mut s = Board::from_fen("7k/5Q2/6K1/8/8/8/8/8 b - - 0 1").unwrap();
    assert_eq!(game_end_check(&mut s, &vec![], 0, 400), Some((Outcome::Draw, EndReason::Stalemate)));
    let mut f = Board::from_fen("4k3/8/8/8/8/8/4P3/4K3 w - - 100 80").unwrap();
    assert_eq!(game_end_check(&mut f, &vec![], 0, 400), Some((Outcome::Draw, EndReason::FiftyMoves)));
    let mut i = Board::from_fen("4k3/8/8/8/8/8/4N3/4K3 w - - 0 1").unwrap();
    assert_eq!(game_end_check(&mut i, &vec![], 0, 400), Some((Outcome::Draw, EndReason::Insufficient)));
    let mut r = Board::startpos();
    let k = r.key;
    assert_eq!(game_end_check(&mut r, &vec![k, 1, k, 2, k], 0, 400), Some((Outcome::Draw, EndReason::ThreeFold)));
    assert_eq!(game_end_check(&mut r, &vec![k, k], 0, 400), None);
    assert_eq!(game_end_check(&mut r, &vec![k], 400, 400), Some((Outcome::Draw, EndReason::MaxPlies)));
}

#[test]
fn long_decisive_runs_are_adjudicated() {
    let mut a = Adjudication { sign: 0, run: 0 };
    let mut verdict = None;
    for score in [2600, 3000, -2600, -2700, -2501, -9000] {
        let (next, v) = adjudicate(a, score, 2500, 4);
        a = next;
        verdict = v;
        if verdict.is_some() {
            break;
        }
    }
    assert_eq!(a, Adjudication { sign: -1, run: 4 });
    assert_eq!(verdict, Some(Outcome::BlackWins));
    let (a2, v2) = adjudicate(Adjudication { sign: 1, run: 3 }, 100, 2500, 4);
    assert_eq!(a2, Adjudication { sign: 0, run: 0 });
    assert_eq!(v2, None);
    let (a_hold, v_hold) = adjudicate(Adjudication { sign: 1, run: 3 }, 2500, 2500, 4);
    assert_eq!(a_hold, Adjudication { sign: 1, run: 4 });
    assert_eq!(v_hold, Some(Outcome::WhiteWins));
}

#[test]
fn fast_legality_agrees_with_make_and_test() {
    for fen in [
        "rnbqkbnr/pppppppp/8/8/8/8/PPPPPPPP/RNBQKBNR w KQkq - 0 1",
        "r3k2r/p1ppqpb1/bn2pnp1/3PN3/1p2P3/2N2Q1p/PPPBBPPP/R3K2R w KQkq - 0 1",
        "8/2p5/3p4/KP5r/1R3p1k/8/4P1P1/8 w - - 0 1",
        "4k3/8/8/8/1b6/8/3B4/4K3 w - - 0 1",
        "4k3/4r3/8/8/8/8/4N3/4K3 w - - 0 1",
        "4k3/8/8/8/7b/8/4r3/3NK2n w - - 0 1",
        "8/8/8/2k5/3pP3/8/8/7K b - e3 0 1",
        "4k3/8/8/8/8/8/3n4/R3K3 w Q - 0 1",
        // kings side by side: every move is made and tested
        "8/8/8/8/8/8/3k4/3K3R w - - 0 1",
    ] {
        let mut b = Board::from_fen(fen).unwrap();
        let fast = b.gen_legal();
        let slow = b.gen_legal_ref();
        assert_eq!(fast, slow, "{fen}");
    }
    // a pinned bishop may not move off the pin; a check by a knight and a
    // rook at once leaves king moves only
    let mut p = Board::from_fen("4k3/8/8/8/1b6/8/3B4/4K3 w - - 0 1").unwrap();
    let pinned: Vec<Move> = p.gen_legal().into_iter().filter(|m| m.from == sq("d2")).collect();
    assert_eq!(pinned, vec![mv(sq("d2"), sq("c3"), 0), mv(sq("d2"), sq("b4"), 0)]);
    let mut d = Board::from_fen("4k3/8/8/8/8/5n2/8/4K2r w - - 0 1").unwrap();
    assert!(d.gen_legal().iter().all(|m| m.from == sq("e1")));
}

#[test]
fn perft_readiness() {
    assert!(Board::startpos().perft_ready(5));
    assert!(!Board::from_fen("8/8/8/8/8/8/8/4K3 w - - 0 1").unwrap().perft_ready(1));
    assert!(!Board::from_fen("4k3/8/8/8/8/8/8/4K3 w - - 65535 1").unwrap().perft_ready(1));
    assert!(Board::from_fen("4k3/8/8/8/8/8/8/4K3 w - - 65534 1").unwrap().perft_ready(1));
}

#[test]
fn incremental_accumulator_matches_refresh() {
    let mut rng = Rng(0x5eed);
    let mut raw = vec![0u8; 2 * NET_WORDS];
    for byte in raw.iter_mut() {
        *byte = (rng.next() & 0x0f) as u8;
    }
    let net = Net::from_bytes(&raw);
    let mut b = Board::startpos();
    let kings = b.king;
    let before = refresh(&net, &b.sq, b.occ[0] | b.occ[1], kings);
    let m = mv(sq("e2"), sq("e4"), 0);
    let _ = b.make(m);
    let fresh = refresh(&net, &b.sq, b.occ[0] | b.occ[1], b.king);
    let mut inc = before;
    sub_piece(&net, &mut inc, WHITE, PAWN - 1, sq("e2"), kings);
    add_piece(&net, &mut inc, WHITE, PAWN - 1, sq("e4"), kings);
    assert_eq!(inc, fresh);
    assert_ne!(before, fresh);
    assert_eq!(make_piece(BLACK, PAWN), 9);
}

#[test]
fn principal_variation_follows_the_table() {
    let b = Board::startpos();
    let mut t = Tt::new(true, 10);
    let mut w = b;
    let e4 = mv(sq("e2"), sq("e4"), 0);
    let _ = w.make(e4);
    t.store(w.key, 3, EXACT, 0, Some(mv(sq("e7"), sq("e5"), 0)));
    let _ = w.make(mv(sq("e7"), sq("e5"), 0));
    // an illegal best move ends the line
    t.store(w.key, 2, EXACT, 0, Some(mv(sq("e4"), sq("e6"), 0)));
    let line = principal_variation(&t, &b, Some(e4), 10);
    assert_eq!(line, vec!["e2e4".to_string(), "e7e5".to_string()]);
    assert_eq!(principal_variation(&t, &b, Some(e4), 1), vec!["e2e4".to_string()]);
    assert!(principal_variation(&t, &b, None, 10).is_empty());
    assert!(principal_variation(&t, &b, Some(e4), 0).is_empty());
}

#[test]
fn search_bookkeeping() {
    let mut kl = [None, None];
    push_killer(&mut kl, mv(1, 2, 0));
    push_killer(&mut kl, mv(3, 4, 0));
    assert_eq!(kl, [Some(mv(3, 4, 0)), Some(mv(1, 2, 0))]);
    push_killer(&mut kl, mv(3, 4, 0));
    assert_eq!(kl, [Some(mv(3, 4, 0)), Some(mv(1, 2, 0))]);
    let mut h = vec![7, -7, 8, -1, 0];
    halve_history(&mut h);
    assert_eq!(h, vec![3, -3, 4, 0, 0]);
    clear_table(&mut h);
    assert_eq!(h, vec![0; 5]);
    assert!(fits_bonus(8192, 9000));
    assert!(!fits_bonus(i32::MAX, 8192));
    assert_eq!(bound_flag(10, 10, 20), UPPER);
    assert_eq!(bound_flag(20, 10, 20), LOWER);
    assert_eq!(bound_flag(15, 10, 20), EXACT);
}

fn words(line: &str) -> Vec<Vec<char>> {
    line.split_whitespace().map(|t| t.chars().collect()).collect()
}

#[test]
fn go_arguments_are_read() {
    let g = parse_go(&words("wtime 60000 btime 59000 winc 1000 binc 1000 infinite depth x nodes 5000 depth 7"));
    assert_eq!(g.wtime, Some(60000));
    assert_eq!(g.btime, Some(59000));
    assert_eq!(g.winc, Some(1000));
    assert_eq!(g.binc, Some(1000));
    assert_eq!(g.nodes, Some(5000));
    assert_eq!(g.depth, Some(7));
    assert_eq!(g.movetime, None);
    let h = parse_go(&words("movetime -5 movestogo +12 depth"));
    assert_eq!(h.movetime, Some(-5));
    assert_eq!(h.movestogo, Some(12));
    assert_eq!(h.depth, None);
    assert_eq!(parse_i64(&"9223372036854775807".chars().collect()), Some(i64::MAX));
    assert_eq!(parse_i64(&"-9223372036854775808".chars().collect()), Some(i64::MIN));
    assert_eq!(parse_i64(&"9223372036854775808".chars().collect()), None);
    assert_eq!(parse_i64(&"-".chars().collect()), None);
    assert_eq!(parse_i64(&"12a".chars().collect()), None);
}

#[test]
fn scores_in_info_form() {
    assert_eq!(score_string(35), "cp 35");
    assert_eq!(score_string(-120), "cp -120");
    assert_eq!(score_string(0), "cp 0");
    assert_eq!(score_string(99_999), "mate 1");
    assert_eq!(score_string(99_997), "mate 2");
    assert_eq!(score_string(-99_998), "mate -1");
    assert_eq!(score_string(-99_996), "mate -2");
    assert_eq!(score_string(99_000), "mate 500");
}

#[test]
fn random_plies_follow_the_stream() {
    let mut b = Board::startpos();
    let mut rng = Rng(7);
    let mut keys = vec![b.key];
    assert!(random_plies(&mut b, &mut rng, 8, &mut keys));
    assert_eq!(keys.len(), 9);
    assert_eq!(*keys.last().unwrap(), b.key);
    // the same stream gives the same line
    let mut b2 = Board::startpos();
    let mut rng2 = Rng(7);
    let mut keys2 = vec![b2.key];
    assert!(random_plies(&mut b2, &mut rng2, 8, &mut keys2));
    assert_eq!(keys, keys2);
    assert_eq!(rng.0, rng2.0);
    // replaying by hand: each move is the stream's next number modulo the count
    let mut b3 = Board::startpos();
    let mut rng3 = Rng(7);
    for _ in 0..8 {
        let ms = b3.gen_legal();
        let _ = b3.make(ms[rng3.below(ms.len())]);
    }
    assert_eq!(b3.key, b.key);
    // a stalemated side has no move to play
    let mut s = Board::from_fen("7k/5Q2/6K1/8/8/8/8/8 b - - 0 1").unwrap();
    let mut k = vec![s.key];
    let before = rng.0;
    assert!(!random_plies(&mut s, &mut rng, 3, &mut k));
    assert_eq!(rng.0, before);
}

#[test]
fn captures_and_quiet_checks_are_kept() {
    // the rook can give check on the e-file or the eighth rank; the pawn takes
    let mut b = Board::from_fen("4k3/8/8/3p4/4P3/8/8/R3K3 w Q - 0 1").unwrap();
    let before = b.key;
    let mut moves = b.gen_legal();
    let added = keep_captures_and_checks(&mut b, &mut moves);
    assert_eq!(b.key, before);
    assert!(moves.contains(&mv(sq("e4"), sq("d5"), 0)));
    assert!(moves.contains(&mv(sq("a1"), sq("a8"), 0)));
    assert_eq!(added as usize, moves.len() - 1);
    assert!(moves.iter().all(|m| *m == mv(sq("e4"), sq("d5"), 0) || m.from == sq("a1") || m.from == sq("e1")));
}

#[test]
fn accumulators_follow_every_move() {
    let mut rng = Rng(0xacc);
    let mut raw = vec![0u8; 2 * NET_WORDS];
    for byte in raw.iter_mut() {
        *byte = rng.next() as u8;
    }
    let net = Net::from_bytes(&raw);
    for fen in [
        "r3k2r/p1ppqpb1/bn2pnp1/3PN3/1p2P3/2N2Q1p/PPPBBPPP/R3K2R w KQkq - 0 1",
        "r3k2r/p1ppqpb1/bn2pnp1/3PN3/1p2P3/2N2Q1p/PPPBBPPP/R3K2R b KQkq - 0 1",
        "8/8/8/2k5/3pP3/8/8/7K b - e3 0 1",
        "rnbq1k1r/pp1Pbppp/2p5/8/2B5/8/PPP1NnPP/RNBQK2R w KQ - 1 8",
    ] {
        let mut b = Board::from_fen(fen).unwrap();
        for m in b.gen_legal() {
            let start = refresh(&net, &b.sq, b.occ[0] | b.occ[1], b.king);
            let mut acc = start;
            update_for_move(&net, &mut acc, &b, m);
            let undo = b.make(m);
            let fresh = refresh(&net, &b.sq, b.occ[0] | b.occ[1], b.king);
            assert_eq!(acc, fresh, "{fen} {}", m.uci());
            b.unmake(m, undo);
        }
    }
}

#[test]
fn position_commands_are_read() {
    let p = parse_position(&words("startpos moves e2e4 e7e5"));
    assert_eq!(p.from, PositionFrom::Start);
    assert_eq!(p.moves, words("e2e4 e7e5"));
    let f = parse_position(&words("fen 8/8/8/8/8/8/8/K6k w - - 0 1 moves a1a2"));
    assert_eq!(f.from, PositionFrom::Fen);
    assert_eq!(f.fen.iter().collect::<String>(), "8/8/8/8/8/8/8/K6k w - - 0 1");
    assert_eq!(f.moves, words("a1a2"));
    let short = parse_position(&words("fen 8/8/8/8/8/8/8/K6k w"));
    assert_eq!(short.fen.iter().collect::<String>(), "8/8/8/8/8/8/8/K6k w");
    assert!(short.moves.is_empty());
    let keep = parse_position(&words("moves e2e4"));
    assert_eq!(keep.from, PositionFrom::Keep);
    assert_eq!(keep.moves, words("e2e4"));
    let none = parse_position(&words("startpos e2e4"));
    assert!(none.moves.is_empty());
}

#[test]
fn table_entries_cut_or_narrow() {
    assert!(matches!(tt_cut(EXACT, 40, -10, 10), TtVerdict::Return(40)));
    assert!(matches!(tt_cut(LOWER, 5, -10, 10), TtVerdict::Window(5, 10)));
    assert!(matches!(tt_cut(LOWER, 15, -10, 10), TtVerdict::Return(15)));
    assert!(matches!(tt_cut(UPPER, 5, -10, 10), TtVerdict::Window(-10, 5)));
    assert!(matches!(tt_cut(UPPER, -15, -10, 10), TtVerdict::Return(-15)));
    assert!(qtt_cut(EXACT, 0, -10, 10));
    assert!(qtt_cut(LOWER, 10, -10, 10));
    assert!(!qtt_cut(LOWER, 9, -10, 10));
    assert!(qtt_cut(UPPER, -10, -10, 10));
    assert!(!qtt_cut(UPPER, -9, -10, 10));
    assert_eq!(draw_score(0), -25);
    assert_eq!(draw_score(3), 25);
}

#[test]
fn network_scores_a_position_and_its_mirror_alike() {
    let mut rng = Rng(0xC010);
    let mut raw = vec![0u8; 2 * NET_WORDS];
    for byte in raw.iter_mut() {
        *byte = rng.next() as u8;
    }
    let net = Net::from_bytes(&raw);
    let b = Board::from_fen("4k3/8/8/3q4/8/8/8/3RK3 w - - 0 1").unwrap();
    let f = Board::from_fen("3rk3/8/8/8/3Q4/8/8/4K3 b - - 0 1").unwrap();
    assert_eq!(neryba::nnue::evaluate(&net, &b), neryba::nnue::evaluate(&net, &f));
    let s = Board::startpos();
    let s_black = Board::from_fen("rnbqkbnr/pppppppp/8/8/8/8/PPPPPPPP/RNBQKBNR b KQkq - 0 1").unwrap();
    assert_eq!(neryba::nnue::evaluate(&net, &s), neryba::nnue::evaluate(&net, &s_black));
}
