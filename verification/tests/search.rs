use neryba::board::{Board, Move};
use neryba::search::{EvalChoice, Searcher, INF, LMR_COUNTS, LMR_DEPTHS, MAX_DEPTH};
use neryba::eval::MATE;
use neryba::tt::draw_score;

fn searcher() -> Searcher {
    Searcher::new(true, 16, false, vec![1u8; LMR_DEPTHS * LMR_COUNTS], vec![u32::MAX; LMR_DEPTHS])
}

fn mv(from: u8, to: u8) -> Move {
    Move { from, to, promo: 0 }
}

#[test]
fn search_finds_the_mate_in_one() {
    let mut b = Board::from_fen("6k1/5ppp/8/8/8/8/8/R5K1 w - - 0 1").unwrap();
    let before = Board::from_fen("6k1/5ppp/8/8/8/8/8/R5K1 w - - 0 1").unwrap();
    let mut s = searcher();
    s.rep_keys = vec![b.key];
    let (m, score, depth) = s.iterate(&EvalChoice::Tapered(None), &mut b, 4, None, None, false, None);
    assert_eq!(m, Some(mv(0, 56)));
    assert_eq!(score, MATE - 1);
    assert!(depth >= 1 && depth <= 4);
    assert_eq!(b.to_fen(), before.to_fen());
    assert_eq!(b.key, before.key);
    assert_eq!(s.rep_keys, vec![before.key]);
    assert!(!s.fault);
}

#[test]
fn stalemated_side_gets_no_move() {
    let mut b = Board::from_fen("7k/5Q2/6K1/8/8/8/8/8 b - - 0 1").unwrap();
    let mut s = searcher();
    let r = s.iterate(&EvalChoice::Tapered(None), &mut b, 3, None, None, false, None);
    assert_eq!(r, (None, 0, 0));
}

#[test]
fn bare_kings_are_a_draw_at_every_node() {
    let mut b = Board::from_fen("8/8/4k3/8/8/3K4/8/8 w - - 0 1").unwrap();
    let mut s = searcher();
    let e = EvalChoice::Tapered(None);
    assert_eq!(s.alpha_beta(&e, &mut b, 3, -INF, INF, 0, None, None), draw_score(0));
    assert_eq!(s.alpha_beta(&e, &mut b, 3, -INF, INF, 1, None, None), draw_score(1));
    assert_ne!(draw_score(0), draw_score(1));
}

#[test]
fn mated_and_stalemated_nodes_score_as_such() {
    let e = EvalChoice::Tapered(None);
    // black is mated (back-rank mate)
    let mut mated = Board::from_fen("R5k1/5ppp/8/8/8/8/8/6K1 b - - 0 1").unwrap();
    let mut s = searcher();
    assert_eq!(s.alpha_beta(&e, &mut mated, 2, -INF, INF, 3, None, None), -(MATE - 3));
    let mut s = searcher();
    assert_eq!(s.quiescence(&e, &mut mated, -INF, INF, 5, 0), -(MATE - 5));
    // black is stalemated
    let mut stale = Board::from_fen("7k/5Q2/6K1/8/8/8/8/8 b - - 0 1").unwrap();
    let mut s = searcher();
    assert_eq!(s.alpha_beta(&e, &mut stale, 2, -INF, INF, 2, None, None), 0);
    let mut s = searcher();
    assert_eq!(s.quiescence(&e, &mut stale, -INF, INF, 2, 0), 0);
}

#[test]
fn a_repeated_position_is_a_draw() {
    let e = EvalChoice::Tapered(None);
    let mut b = Board::from_fen("4k3/8/8/8/8/8/4P3/4K2R w K - 6 40").unwrap();
    let mut s = searcher();
    s.rep_keys = vec![b.key, 1, b.key, 2];
    assert_eq!(s.alpha_beta(&e, &mut b, 2, -INF, INF, 2, None, None), draw_score(2));
    // seen once before: searched normally
    let mut s = searcher();
    s.rep_keys = vec![b.key];
    assert!(s.alpha_beta(&e, &mut b, 2, -INF, INF, 2, None, None) > 0);
}

#[test]
fn the_search_takes_the_hanging_queen() {
    let mut b = Board::from_fen("4k3/8/8/3q4/8/8/8/3RK3 w - - 0 1").unwrap();
    let mut s = searcher();
    let (m, score, _) = s.iterate(&EvalChoice::Tapered(None), &mut b, 3, None, None, false, None);
    assert_eq!(m, Some(mv(3, 35)));
    assert!(score > 300);
    assert!(s.nodes > 0);
}

#[test]
fn depth_is_bounded_by_the_request() {
    let mut b = Board::startpos();
    let mut s = searcher();
    let (m, _score, depth) = s.iterate(&EvalChoice::Tapered(None), &mut b, 2, None, None, true, Some((4, 40, 8)));
    assert!(m.is_some());
    assert_eq!(depth, 2);
    let (_m, _s, depth) = s.iterate(&EvalChoice::Tapered(None), &mut b, 0, None, None, false, None);
    assert_eq!(depth, 0);
    assert!(MAX_DEPTH >= 100);
}

#[test]
fn node_limit_stops_the_search_but_keeps_a_move() {
    let mut b = Board::startpos();
    let mut s = searcher();
    s.node_limit = Some(2000);
    let (m, _score, depth) = s.iterate(&EvalChoice::Tapered(None), &mut b, 50, None, None, false, None);
    assert!(m.is_some());
    assert!(depth < 50);
    assert!(s.stop);
}

#[test]
fn new_searcher_has_the_default_switches() {
    let s = searcher();
    assert!(s.sw.lmr_enabled && s.sw.nullmove_enabled && s.sw.tt_enabled && s.sw.qtt_enabled && s.sw.rfp_enabled && s.sw.see_qs);
    assert!(!s.sw.singular && !s.sw.hist2 && !s.sw.lmp_enabled && !s.sw.iir_enabled);
    assert_eq!((s.sw.rfp_margin, s.sw.rfp_depth, s.sw.iir_min, s.sw.sing_min, s.sw.sing_margin), (100, 6, 4, 7, 2));
    assert!(s.conthist.is_empty());
    assert_eq!(s.history.len(), 8192);
}

#[test]
fn an_en_passant_square_off_the_usual_rank_is_searched() {
    let fen = "4k3/8/8/8/8/8/3P4/4K3 w - e3 0 1";
    let mut b = Board::from_fen(fen).unwrap();
    assert!(b.perft_ready(129));
    let mut s = searcher();
    let (m, _score, depth) = s.iterate(&EvalChoice::Tapered(None), &mut b, 2, None, None, false, None);
    assert!(m.is_some());
    assert_eq!(depth, 2);
    assert_eq!(b.to_fen(), Board::from_fen(fen).unwrap().to_fen());
    assert!(!s.stop && !s.fault);
}

#[test]
fn depth_zero_gives_the_first_legal_move() {
    let mut b = Board::startpos();
    let first = Board::startpos().gen_legal()[0];
    let mut s = searcher();
    assert_eq!(s.iterate(&EvalChoice::Tapered(None), &mut b, 0, None, None, false, None), (Some(first), 0, 0));
}
