use neryba::board::Board;

// Public perft vectors (CPW "Perft Results").
#[test]
fn perft_startpos() {
    let mut b = Board::startpos();
    assert_eq!(b.perft(1), 20);
    assert_eq!(b.perft(2), 400);
    assert_eq!(b.perft(3), 8_902);
    assert_eq!(b.perft(4), 197_281);
    assert_eq!(b.perft(5), 4_865_609);
}

#[test]
fn perft_kiwipete() {
    let mut b = Board::from_fen(
        "r3k2r/p1ppqpb1/bn2pnp1/3PN3/1p2P3/2N2Q1p/PPPBBPPP/R3K2R w KQkq - 0 1",
    )
    .unwrap();
    assert_eq!(b.perft(1), 48);
    assert_eq!(b.perft(2), 2_039);
    assert_eq!(b.perft(3), 97_862);
    assert_eq!(b.perft(4), 4_085_603);
}

#[test]
fn perft_pos3_ep_pins() {
    let mut b = Board::from_fen("8/2p5/3p4/KP5r/1R3p1k/8/4P1P1/8 w - - 0 1").unwrap();
    assert_eq!(b.perft(4), 43_238);
    assert_eq!(b.perft(5), 674_624);
}

#[test]
fn perft_pos4_promotions() {
    let mut b = Board::from_fen(
        "r3k2r/Pppp1ppp/1b3nbN/nP6/BBP1P3/q4N2/Pp1P2PP/R2Q1RK1 w kq - 0 1",
    )
    .unwrap();
    assert_eq!(b.perft(3), 9_467);
    assert_eq!(b.perft(4), 422_333);
}

#[test]
fn perft_pos5() {
    let mut b = Board::from_fen(
        "rnbq1k1r/pp1Pbppp/2p5/8/2B5/8/PPP1NnPP/RNBQK2R w KQ - 1 8",
    )
    .unwrap();
    assert_eq!(b.perft(3), 62_379);
    assert_eq!(b.perft(4), 2_103_487);
}

#[test]
fn perft_pos6() {
    let mut b = Board::from_fen(
        "r4rk1/1pp1qppp/p1np1n2/2b1p1B1/2B1P1b1/P1NP1N2/1PP1QPPP/R4RK1 w - - 0 10",
    )
    .unwrap();
    assert_eq!(b.perft(3), 89_890);
    assert_eq!(b.perft(4), 3_894_594);
}

#[test]
fn fen_roundtrip() {
    for fen in [
        "rnbqkbnr/pppppppp/8/8/8/8/PPPPPPPP/RNBQKBNR w KQkq - 0 1",
        "r3k2r/p1ppqpb1/bn2pnp1/3PN3/1p2P3/2N2Q1p/PPPBBPPP/R3K2R w KQkq - 0 1",
        "8/2p5/3p4/KP5r/1R3p1k/8/4P1P1/8 b - - 3 42",
    ] {
        assert_eq!(Board::from_fen(fen).unwrap().fen(), fen);
    }
}
