use akimbo::fen::{split_whitespace, str_chars};
use akimbo::frc::Castling;
use akimbo::network::{Network, NET_BYTES};
use akimbo::position::Position;
use akimbo::uci::{go_limits, parse_i64, set_position, STARTPOS};

fn words(s: &str) -> Vec<Vec<char>> {
    split_whitespace(&str_chars(s))
}

fn start() -> (Position, Castling) {
    let mut castling = Castling::default();
    let pos = Position::from_fen(STARTPOS, &mut castling).unwrap();
    (pos, castling)
}

#[test]
fn words_split_on_whitespace() {
    let w = words("  go  wtime 100\tbtime 5 \n");
    assert_eq!(w.len(), 5);
    assert_eq!(w[1], vec!['w', 't', 'i', 'm', 'e']);
    assert!(words("   ").is_empty());
}

#[test]
fn integers_parse() {
    let p = |s: &str| parse_i64(&str_chars(s));
    assert_eq!(p("42"), Some(42));
    assert_eq!(p("+7"), Some(7));
    assert_eq!(p("-9223372036854775808"), Some(i64::MIN));
    assert_eq!(p("9223372036854775807"), Some(i64::MAX));
    assert_eq!(p("9223372036854775808"), None);
    assert_eq!(p("-"), None);
    assert_eq!(p("12a"), None);
    assert_eq!(p(""), None);
}

#[test]
fn go_with_clock() {
    let l = go_limits(&words("go wtime 60000 btime 30000 winc 1000 binc 0"), 0).unwrap();
    assert_eq!(l.depth, 64);
    assert_eq!(l.nodes, u64::MAX);
    // 60000 / 25 + 3 * 1000 / 4 = 3150
    assert_eq!(l.hard_bound, 6300);
    assert_eq!(l.soft_bound, 3150 * 6 / 10);
    let l = go_limits(&words("go wtime 60000 btime 30000 winc 1000 binc 0"), 1).unwrap();
    assert_eq!(l.hard_bound, 2400);
    assert_eq!(l.soft_bound, 720);
}

#[test]
fn go_with_movetime_depth_nodes() {
    let l = go_limits(&words("go movetime 500"), 0).unwrap();
    assert_eq!(l.hard_bound, 490);
    assert_eq!(l.soft_bound, 500);
    let l = go_limits(&words("go depth 7 nodes 1000"), 1).unwrap();
    assert_eq!(l.depth, 7);
    assert_eq!(l.nodes, 1000);
    assert_eq!(l.hard_bound, 999990);
    assert_eq!(l.soft_bound, 600000);
    let l = go_limits(&words("go depth 900"), 0).unwrap();
    assert_eq!(l.depth, 64);
    assert!(go_limits(&words("go wtime 1000 movestogo 0"), 0).is_none());
}

#[test]
fn position_with_moves() {
    let (mut pos, mut castling) = start();
    let mut stack = Vec::new();
    assert!(set_position(&words("position startpos moves e2e4 e7e5 g1f3"), &mut pos, &mut stack, &mut castling));
    assert_eq!(stack.len(), 3);
    let mut c2 = Castling::default();
    let expect = Position::from_fen("rnbqkbnr/pppp1ppp/8/4p3/4P3/5N2/PPPP1PPP/RNBQKB1R b KQkq - 1 2", &mut c2).unwrap();
    assert_eq!(pos.bb, expect.bb);
    assert_eq!(pos.hash(), expect.hash());
    assert_eq!(pos.halfm, 1);
}

#[test]
fn position_from_fen() {
    let (mut pos, mut castling) = start();
    let mut stack = vec![1, 2, 3];
    assert!(set_position(&words("position fen 4k3/8/8/8/8/8/8/4K2R w K - 0 1 moves e1g1"), &mut pos, &mut stack, &mut castling));
    assert_eq!(stack.len(), 1);
    let mut c3 = Castling::default();
    let first = Position::from_fen("4k3/8/8/8/8/8/8/4K2R w K - 0 1", &mut c3).unwrap();
    assert_eq!(stack[0], first.hash());
    assert_eq!(pos.bb[7] & pos.bb[0], 1 << 6);
    assert_eq!(pos.rights, 0);
    let before = pos;
    assert!(!set_position(&words("position fen 8/8 w"), &mut pos, &mut stack, &mut castling));
    assert_eq!(pos.bb, before.bb);
}

#[test]
fn network_bytes() {
    assert!(Network::from_bytes(&[0u8; 10]).is_none());
    let mut bytes = vec![0u8; NET_BYTES];
    bytes[0] = 0x34;
    bytes[1] = 0x12;
    bytes[2 * 3075 * 1024] = 0xFF;
    bytes[2 * 3075 * 1024 + 1] = 0xFF;
    let net = Network::from_bytes(&bytes).unwrap();
    assert_eq!(net.feature_weights.len(), 3072);
    assert_eq!(net.feature_weights[0].vals[0], 0x1234);
    assert_eq!(net.output_bias, -1);
}
