use akimbo::frc::Castling;
use akimbo::moves::Move;
use akimbo::position::Position;
use akimbo::uci::{perft, perft_divide, STARTPOS};

const KIWIPETE: &str = "r3k2r/p1ppqpb1/bn2pnp1/3PN3/1p2P3/2N2Q1p/PPPBBPPP/R3K2R w KQkq - 0 1";

fn load(fen: &str) -> (Position, Castling) {
    let mut castling = Castling::default();
    let pos = Position::from_fen(fen, &mut castling).expect("a valid fen");
    (pos, castling)
}

#[test]
fn startpos_reads() {
    let (pos, castling) = load(STARTPOS);
    assert_eq!(pos.bb[0], 0xFFFF);
    assert_eq!(pos.bb[1], 0xFFFF_0000_0000_0000);
    assert_eq!(pos.bb[2], 0x00FF_0000_0000_FF00);
    assert_eq!(pos.bb[7], 0x1000_0000_0000_0010);
    assert!(!pos.c);
    assert_eq!(pos.rights, 15);
    assert_eq!(pos.enp_sq, 0);
    assert_eq!(pos.halfm, 0);
    assert_eq!(pos.phase, 24);
    assert!(!castling.is_chess960());
    assert_eq!(castling.rook_file(0, 0), 0);
    assert_eq!(castling.rook_file(0, 1), 7);
    assert_eq!(castling.mask(0), 7);
    assert_eq!(castling.mask(4), 3);
    assert_eq!(castling.mask(63), 14);
    assert_eq!(castling.mask(20), 15);
}

#[test]
fn fen_fields() {
    let (pos, _) = load("4k3/8/8/3pP3/8/8/8/4K3 w - d6 7 40");
    assert_eq!(pos.enp_sq, 43);
    assert_eq!(pos.halfm, 7);
    assert_eq!(pos.rights, 0);
    let (pos, _) = load("4k3/8/8/8/8/8/8/4K3 b - -");
    assert!(pos.c);
    assert_eq!(pos.halfm, 0);
}

#[test]
fn fen_refused() {
    let mut castling = Castling::default();
    assert!(Position::from_fen("", &mut castling).is_none());
    assert!(Position::from_fen("8/8/8/8/8/8/8/8 w KQkq", &mut castling).is_none());
    assert!(Position::from_fen("KK6/8/8/8/8/8/8/8 w - -", &mut castling).is_some());
    assert!(Position::from_fen("9K/8/8/8/8/8/8/8 w - -", &mut castling).is_some());
    assert!(Position::from_fen("8/8/8/8/8/8/8/8 w - e9", &mut castling).is_none());
    assert!(Position::from_fen("8/8/8/8/8/8/8/8 w - x", &mut castling).is_none());
    assert!(Position::from_fen("8/8/8/8/8/8/8/8 w - - 300", &mut castling).is_none());
    assert!(Position::from_fen("8/8/8/8/8/8/8/8/K w - -", &mut castling).is_none());
}

#[test]
fn chess960_castling_field() {
    let (pos, castling) = load("bqnb1rkr/pp3ppp/3ppn2/2p5/5P2/P2P4/NPP1P1PP/BQ1BNRKR w HFhf - 2 9");
    assert!(castling.is_chess960());
    assert_eq!(castling.rook_file(0, 0), 5);
    assert_eq!(castling.rook_file(0, 1), 7);
    assert_eq!(castling.rook_file(1, 0), 5);
    assert_eq!(castling.rook_file(1, 1), 7);
    assert_eq!(pos.rights, 15);
    assert_eq!(castling.mask(6), 3);
    assert_eq!(castling.mask(62), 12);
}

#[test]
fn perft_startpos() {
    let (pos, castling) = load(STARTPOS);
    assert_eq!(perft(&pos, &castling, 1), 20);
    assert_eq!(perft(&pos, &castling, 2), 400);
    assert_eq!(perft(&pos, &castling, 3), 8902);
}

#[test]
fn perft_kiwipete() {
    let (pos, castling) = load(KIWIPETE);
    assert_eq!(perft(&pos, &castling, 1), 48);
    assert_eq!(perft(&pos, &castling, 2), 2039);
}

#[test]
fn perft_en_passant_and_promotions() {
    let (pos, castling) = load("8/2p5/3p4/KP5r/1R3p1k/8/4P1P1/8 w - - 0 1");
    assert_eq!(perft(&pos, &castling, 1), 14);
    assert_eq!(perft(&pos, &castling, 2), 191);
    assert_eq!(perft(&pos, &castling, 3), 2812);
    let (pos, castling) = load("r3k2r/Pppp1ppp/1b3nbN/nP6/BBP1P3/q4N2/Pp1P2PP/R2Q1RK1 w kq - 0 1");
    assert_eq!(perft(&pos, &castling, 1), 6);
    assert_eq!(perft(&pos, &castling, 2), 264);
}

#[test]
fn perft_divide_sums() {
    let (pos, castling) = load(STARTPOS);
    let div = perft_divide(&pos, &castling, 2);
    assert_eq!(div.len(), 20);
    assert_eq!(div.iter().map(|(_, n)| *n).sum::<u64>(), 400);
}

#[test]
fn uci_notation() {
    let (pos, castling) = load(STARTPOS);
    let moves = pos.movegen::<true>(&castling);
    let names: Vec<String> = (0..moves.len()).map(|i| moves.get(i).to_uci(&castling)).collect();
    assert!(names.contains(&"e2e4".to_string()));
    assert!(names.contains(&"g1f3".to_string()));
    let (pos, castling) = load("r3k2r/8/8/8/8/8/8/R3K2R w KQkq - 0 1");
    let moves = pos.movegen::<true>(&castling);
    let names: Vec<String> = (0..moves.len()).map(|i| moves.get(i).to_uci(&castling)).collect();
    assert!(names.contains(&"e1g1".to_string()));
    assert!(names.contains(&"e1c1".to_string()));
    let m = Move { from: 52, to: 60, flag: 11, pc: 2 };
    assert_eq!(m.to_uci(&castling), "e7e8q");
    let m = Move { from: 52, to: 61, flag: 12, pc: 2 };
    assert_eq!(m.to_uci(&castling), "e7f8n");
}

#[test]
fn chess960_castle_notation() {
    let (pos, castling) = load("r3k2r/8/8/8/8/8/8/1R2K1R1 w GB - 0 1");
    let moves = pos.movegen::<true>(&castling);
    let names: Vec<String> = (0..moves.len()).map(|i| moves.get(i).to_uci(&castling)).collect();
    assert!(names.contains(&"e1g1".to_string()));
    assert!(names.contains(&"e1b1".to_string()));
}

#[test]
fn short_round_trip() {
    let (pos, _) = load(STARTPOS);
    let m = Move { from: 12, to: 28, flag: 1, pc: 2 };
    let s = m.to_short();
    assert_eq!(s, 28 | (12 << 6) | (1 << 12));
    let back = Move::from_short(s, &pos);
    assert_eq!(back.from, 12);
    assert_eq!(back.to, 28);
    assert_eq!(back.flag, 1);
    assert_eq!(back.pc, 2);
    assert_eq!(Move::unpack_short(s), (12, 28, 1));
}

#[test]
fn make_updates_position() {
    let (mut pos, castling) = load(STARTPOS);
    let before = pos.hash();
    let m = Move { from: 12, to: 28, flag: 1, pc: 2 };
    assert!(!pos.make(m, &castling));
    assert!(pos.c);
    assert_eq!(pos.enp_sq, 20);
    assert_eq!(pos.halfm, 0);
    assert_ne!(pos.hash(), before);
    let (fresh, _) = load("rnbqkbnr/pppppppp/8/8/4P3/8/PPPP1PPP/RNBQKBNR b KQkq e3 0 1");
    assert_eq!(pos.hash(), fresh.hash());
    assert_eq!(pos.bb, fresh.bb);
}

#[test]
fn make_reports_illegal_move() {
    let (mut pos, castling) = load("4k3/8/8/8/8/8/4r3/4K3 w - - 0 1");
    let m = Move { from: 4, to: 3, flag: 0, pc: 7 };
    assert!(!pos.clone().make(m, &castling));
    let m = Move { from: 4, to: 5, flag: 0, pc: 7 };
    assert!(!pos.make(m, &castling));
    let (mut pos, castling) = load("4k3/8/8/8/8/8/8/r3K3 w - - 0 1");
    let m = Move { from: 4, to: 12, flag: 0, pc: 7 };
    assert!(!pos.make(m, &castling));
    let (mut pos, castling) = load("4k3/8/8/8/8/8/8/r3K3 w - - 0 1");
    let m = Move { from: 4, to: 3, flag: 0, pc: 7 };
    assert!(pos.make(m, &castling));
    let (mut pos, castling) = load("4k3/8/8/8/8/8/8/r3K3 w - - 0 1");
    let m = Move { from: 4, to: 5, flag: 0, pc: 7 };
    assert!(pos.make(m, &castling));
}

#[test]
fn castling_rights_shrink() {
    let (mut pos, castling) = load("r3k2r/8/8/8/8/8/8/R3K2R w KQkq - 0 1");
    let m = Move { from: 0, to: 1, flag: 0, pc: 5 };
    pos.make(m, &castling);
    assert_eq!(pos.rights, 7);
    let m = Move { from: 60, to: 61, flag: 0, pc: 7 };
    pos.make(m, &castling);
    assert_eq!(pos.rights, 4);
}

#[test]
fn null_move_passes() {
    let (mut pos, _) = load("4k3/8/8/3pP3/8/8/8/4K3 w - d6 7 40");
    pos.make_null();
    assert!(pos.c);
    assert_eq!(pos.enp_sq, 0);
}

#[test]
fn in_check_and_attacks() {
    let (pos, _) = load("4k3/8/8/8/8/8/4r3/4K3 w - - 0 1");
    assert!(pos.in_check());
    assert!(pos.sq_attacked(4, 0, pos.bb[0] | pos.bb[1]));
    let (pos, _) = load(STARTPOS);
    assert!(!pos.in_check());
    assert_eq!(pos.get_pc(1 << 4), 7);
    assert_eq!(pos.get_pc(1 << 1), 3);
    assert_eq!(pos.get_pc(1 << 30), 0);
    assert!(pos.has_non_pk(0));
}

#[test]
fn threats_of_the_opponent() {
    let (pos, _) = load("4k3/8/8/8/8/8/8/4K3 w - - 0 1");
    let t = pos.threats();
    assert_eq!(t, (1u64 << 59) | (1 << 61) | (1 << 51) | (1 << 52) | (1 << 53));
    let (pos, _) = load("4k3/8/8/8/8/8/p7/4K3 w - - 0 1");
    assert!(pos.threats() & (1 << 1) != 0);
}

#[test]
fn draw_rules() {
    let (pos, _) = load("4k3/8/8/8/8/8/8/4K3 w - - 0 1");
    assert!(pos.draw());
    let (pos, _) = load("4k3/8/8/8/8/8/8/3NK3 w - - 0 1");
    assert!(pos.draw());
    let (pos, _) = load("4k3/8/8/8/8/8/8/3RK3 w - - 0 1");
    assert!(!pos.draw());
    let (pos, _) = load("4k3/8/8/8/8/8/8/3RK3 w - - 100 80");
    assert!(pos.draw());
    let (pos, _) = load("4kb2/8/8/8/8/8/8/2B1K3 w - - 0 1");
    assert!(pos.draw());
    let (pos, _) = load("4k1b1/8/8/8/8/8/8/2B1K3 w - - 0 1");
    assert!(!pos.draw());
}

#[test]
fn static_exchange() {
    let (pos, _) = load("4k3/8/8/3p4/4P3/8/8/4K3 w - - 0 1");
    let m = Move { from: 28, to: 35, flag: 4, pc: 2 };
    assert!(pos.see(m, 0));
    assert!(pos.see(m, 100));
    // with nothing to recapture, the exchange ends with the capture itself
    assert!(pos.see(m, 101));
    let (pos, _) = load("4k3/2p5/3p4/8/8/8/3Q4/4K3 w - - 0 1");
    let m = Move { from: 11, to: 43, flag: 4, pc: 6 };
    assert!(!pos.see(m, 0));
    assert!(!pos.see(m, 2_000_000_000));
    assert!(pos.see(m, -2_000_000_000));
    assert_eq!(pos.gain(m), 100);
}

#[test]
fn key_after_quiet_move() {
    let (pos, _) = load(STARTPOS);
    let (_, castling) = load(STARTPOS);
    let m = Move { from: 6, to: 21, flag: 0, pc: 3 };
    let mut after = pos;
    after.make(m, &castling);
    assert_eq!(pos.key_after(pos.hash(), m), after.hash());
}

#[test]
fn long_fen_is_read() {
    let mut fen = String::from("4k3/8/8/8/8/8/8/4K3 w - - 0 1");
    fen.push_str(&" ".repeat(5000));
    let mut castling = Castling::default();
    let pos = Position::from_fen(&fen, &mut castling).expect("a valid fen");
    assert!(pos.has_both_kings());
}
