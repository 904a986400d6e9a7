use akimbo::datagen::{adjudicate, run_game};
use akimbo::frc::Castling;
use akimbo::network::{Accumulator, Network};
use akimbo::tables::{HashTable, HistoryTable};
use akimbo::thread::ThreadData;

fn flat_net() -> Network {
    let acc = Accumulator { vals: [0; 1024] };
    Network { feature_weights: vec![acc; 3072], feature_bias: acc, output_weights: [acc; 2], output_bias: 0 }
}

fn engine(net: &Network) -> ThreadData<'_> {
    let mut tt = HashTable::default();
    tt.resize(1);
    ThreadData::new(net, tt, Vec::new(), HistoryTable::default(), Castling::default(), vec![0; 256 * 256])
}

#[test]
fn adjudication_follows_the_score_and_side() {
    assert_eq!(adjudicate(3001, 0), Some(2));
    assert_eq!(adjudicate(3001, 1), Some(0));
    assert_eq!(adjudicate(-3001, 0), Some(0));
    assert_eq!(adjudicate(-3001, 1), Some(2));
    assert_eq!(adjudicate(3000, 0), None);
    assert_eq!(adjudicate(-3000, 1), None);
    assert_eq!(adjudicate(0, 1), None);
}

#[test]
fn an_empty_book_plays_no_game() {
    let net = flat_net();
    let mut eng = engine(&net);
    let mut rng = 12345u64;
    let book: Vec<String> = Vec::new();
    assert!(run_game(&mut rng, &mut eng, Some(&book), 100).is_none());
    assert_eq!(eng.ply, 0);
}

#[test]
fn dead_book_lines_play_no_game() {
    let net = flat_net();
    let mut eng = engine(&net);
    let mut rng = 777u64;
    let book = vec![
        "not a position".to_string(),
        "7k/5Q2/6K1/8/8/8/8/8 b - - 0 1".to_string(),
        "R5k1/5ppp/8/8/8/8/8/6K1 b - - 0 1".to_string(),
    ];
    for _ in 0..6 {
        assert!(run_game(&mut rng, &mut eng, Some(&book), 100).is_none());
    }
}
