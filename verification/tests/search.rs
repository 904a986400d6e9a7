use akimbo::consts::Score;
use akimbo::frc::Castling;
use akimbo::network::{activ_dot_prod, Accumulator, EvalTable, Network};
use akimbo::position::Position;
use akimbo::search::{go, limits_hit};
use akimbo::tables::{HashTable, HistoryTable};
use akimbo::thread::ThreadData;

fn zero_acc() -> Accumulator {
    Accumulator { vals: [0; 1024] }
}

fn zero_net(bias: i16) -> Network {
    Network {
        feature_weights: vec![zero_acc(); 3072],
        feature_bias: zero_acc(),
        output_weights: [zero_acc(); 2],
        output_bias: bias,
    }
}

fn load(fen: &str) -> (Position, Castling) {
    let mut castling = Castling::default();
    let pos = Position::from_fen(fen, &mut castling).expect("a valid fen");
    (pos, castling)
}

#[test]
fn network_output_and_scaling() {
    let net = zero_net(16320);
    assert_eq!(net.out(&zero_acc(), &zero_acc()), 400);
    let (pos, _) = load("rnbqkbnr/pppppppp/8/8/8/8/PPPPPPPP/RNBQKBNR w KQkq - 0 1");
    assert_eq!(pos.eval_from_scratch(&net), 400 * 971 / 1024);
    let mut cache = EvalTable::new(&net);
    assert_eq!(pos.eval(&net, &mut cache), 400 * 971 / 1024);
    assert_eq!(pos.eval(&net, &mut cache), 400 * 971 / 1024);
}

#[test]
fn dot_product_clips() {
    let mut acc = zero_acc();
    acc.vals[0] = 300;
    acc.vals[1] = -5;
    acc.vals[2] = 10;
    let mut w = zero_acc();
    w.vals[0] = 1;
    w.vals[1] = 1;
    w.vals[2] = 2;
    assert_eq!(activ_dot_prod(&acc, &w), 255 * 255 + 10 * 10 * 2);
}

#[test]
fn buckets_and_features() {
    assert_eq!(Network::get_bucket::<0>(4), 5);
    assert_eq!(Network::get_bucket::<1>(4), 7);
    assert_eq!(Network::get_base_index::<0>(0, 0, 4), 768);
    assert_eq!(Network::get_base_index::<1>(0, 1, 60), 768 + 384 + 64);
}

#[test]
fn accumulator_updates() {
    let mut net = zero_net(0);
    for j in 0..1024 {
        net.feature_weights[5].vals[j] = j as i16;
        net.feature_weights[9].vals[j] = 1;
    }
    let mut acc = zero_acc();
    acc.update_multi(&net, &[5, 5], &[9]);
    assert_eq!(acc.vals[0], -1);
    assert_eq!(acc.vals[10], 19);
    acc.add_feature(&net, 9);
    assert_eq!(acc.vals[10], 20);
}

fn thread<'a>(net: &'a Network, castling: Castling) -> ThreadData<'a> {
    let mut tt = HashTable::default();
    tt.resize(1);
    let mut eng = ThreadData::new(net, tt, Vec::new(), HistoryTable::default(), castling, vec![0; 256 * 256]);
    eng.max_time = u64::MAX;
    eng
}

#[test]
fn finds_back_rank_mate() {
    let net = zero_net(0);
    let (pos, castling) = load("6k1/5ppp/8/8/8/8/8/R5K1 w - - 0 1");
    let mut eng = thread(&net, castling);
    let (best, score) = go(&pos, &mut eng, 3, u64::MAX, u64::MAX);
    assert_eq!((best.from, best.to), (0, 56));
    assert_eq!(score, Score::MAX - 1);
    assert_eq!(eng.ply, 0);
    assert!(!eng.reports.is_empty());
}

#[test]
fn stalemate_scores_zero() {
    let net = zero_net(0);
    let (pos, castling) = load("7k/5Q2/6K1/8/8/8/8/8 b - - 0 1");
    let mut eng = thread(&net, castling);
    let (_, score) = go(&pos, &mut eng, 2, u64::MAX, u64::MAX);
    assert_eq!(score, 0);
}

#[test]
fn repetition_on_the_path() {
    let net = zero_net(0);
    let (pos, castling) = load("4k3/8/8/8/8/8/8/4K3 w - - 8 30");
    let mut eng = thread(&net, castling);
    eng.stack = vec![7, 1, 2, 3, 4, 5, 6];
    assert!(!eng.repetition(&pos, 7, false));
    eng.stack = vec![1, 7, 2, 3, 4, 5, 6];
    assert!(eng.repetition(&pos, 7, false));
    assert!(!eng.repetition(&pos, 7, true));
    eng.stack = vec![3, 7, 3, 7, 4, 5, 6];
    assert!(eng.repetition(&pos, 7, true));
    eng.stack = vec![1, 2, 3];
    assert!(!eng.repetition(&pos, 1, false));
    eng.push(99);
    assert_eq!(eng.ply, 1);
    assert_eq!(eng.stack.len(), 4);
    eng.pop();
    assert_eq!(eng.ply, 0);
    assert_eq!(eng.stack.len(), 3);
    eng.store_stop(true);
    assert!(eng.stop_is_set());
}

fn noisy_net() -> Network {
    let mut net = zero_net(37);
    let mut seed: u32 = 12345;
    let mut next = || {
        seed = seed.wrapping_mul(1103515245).wrapping_add(12345);
        ((seed >> 16) % 201) as i16 - 100
    };
    for f in 0..3072 {
        for j in 0..1024 {
            net.feature_weights[f].vals[j] = next();
        }
    }
    for j in 0..1024 {
        net.feature_bias.vals[j] = next();
        net.output_weights[0].vals[j] = next();
        net.output_weights[1].vals[j] = next();
    }
    net
}

#[test]
fn cached_eval_matches_scratch_along_a_game() {
    let net = noisy_net();
    let (mut pos, castling) = load("r3k2r/p1ppqpb1/bn2pnp1/3PN3/1p2P3/2N2Q1p/PPPBBPPP/R3K2R w KQkq - 0 1");
    let mut cache = EvalTable::new(&net);
    assert_eq!(pos.eval(&net, &mut cache), pos.eval_from_scratch(&net));
    for ply in 0..80usize {
        let moves = pos.movegen::<true>(&castling);
        let mut played = false;
        for k in 0..moves.len() {
            let m = moves.get((k + ply * 7) % moves.len());
            let mut next = pos.clone();
            if !next.make(m, &castling) {
                pos = next;
                played = true;
                break;
            }
        }
        if !played {
            break;
        }
        assert_eq!(pos.eval(&net, &mut cache), pos.eval_from_scratch(&net));
        assert_eq!(pos.eval(&net, &mut cache), pos.eval_from_scratch(&net));
    }
}

#[test]
fn millisecond_counts_stop_at_the_largest() {
    assert_eq!(akimbo::thread::millis_u64(1234), 1234);
    assert_eq!(akimbo::thread::millis_u64(u64::MAX as u128), u64::MAX);
    assert_eq!(akimbo::thread::millis_u64(u64::MAX as u128 + 7), u64::MAX);
}

#[test]
fn search_limits_are_reached_at_either_bound() {
    assert!(limits_hit(10, 10, 0, 100));
    assert!(limits_hit(0, 10, 100, 100));
    assert!(!limits_hit(9, 10, 99, 100));
    assert!(limits_hit(u64::MAX, u64::MAX, 0, u64::MAX));
}

#[test]
fn deep_depth_limit_stops_on_the_node_budget() {
    let net = zero_net(0);
    let (pos, castling) = load("4k3/8/8/8/8/8/8/4K2R w K - 0 1");
    let mut eng = thread(&net, castling);
    let (best, _) = go(&pos, &mut eng, 40000, u64::MAX, 2000);
    assert!(best.pc != 0);
    assert_eq!(eng.ply, 0);
}

#[test]
fn swapped_update_undoes_an_update() {
    let mut net = noisy_net();
    for j in 0..1024 {
        net.feature_weights[5].vals[j] = 32000;
    }
    let mut acc = net.feature_bias;
    let before = acc.vals;
    acc.update_multi(&net, &[5, 5, 700, 1500], &[12]);
    assert_ne!(acc.vals, before);
    acc.update_multi(&net, &[12], &[5, 5, 700, 1500]);
    assert_eq!(acc.vals, before);
}

#[test]
fn go_ages_the_table_and_reports_its_score() {
    let net = zero_net(0);
    let (pos, castling) = load("4k3/8/8/8/8/8/3P4/4K3 w - - 0 1");
    let mut eng = thread(&net, castling);
    let age = eng.tt.get_age();
    let (best, score) = go(&pos, &mut eng, 4, u64::MAX, u64::MAX);
    assert_eq!(eng.tt.get_age(), age + 1);
    assert_eq!(eng.reports.len(), 4);
    assert_eq!(eng.reports.last().unwrap().score, score);
    assert!(best.pc != 0);
}
