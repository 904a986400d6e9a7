use akimbo::consts::{Bound, Score};
use akimbo::moves::{Move, MoveList};
use akimbo::tables::{HashEntry, HashTable, HistoryTable, NodeTable, PlyTable};

#[test]
fn hash_entry_packs_and_unpacks() {
    let e = HashEntry { key: 0xBEEF, best_move: 0x1234, score: -1234, depth: -3, bound: 0x85 };
    let x = e.to_u64();
    assert_eq!(x, 0xBEEF | (0x1234 << 16) | ((-1234i16 as u16 as u64) << 32) | ((-3i8 as u8 as u64) << 48) | (0x85 << 56));
    let back = HashEntry::from_internal(akimbo::tables::HashEntryInternal { data: x });
    assert_eq!(back.key, 0xBEEF);
    assert_eq!(back.best_move, 0x1234);
    assert_eq!(back.score(), -1234);
    assert_eq!(back.depth(), -3);
    assert_eq!(back.bound(), 1);
}

#[test]
fn table_resize_and_clear() {
    let mut tt = HashTable::default();
    assert_eq!(tt.table.len(), 0);
    tt.resize(0);
    assert_eq!(tt.table.len(), 1 << 16);
    tt.resize(16);
    assert_eq!(tt.table.len(), 1 << 21);
    tt.age_up();
    tt.age_up();
    assert_eq!(tt.get_age(), 2);
    tt.clear();
    assert_eq!(tt.get_age(), 0);
    assert!(tt.table.iter().all(|e| e.data == 0));
}

#[test]
fn probe_finds_what_push_stored() {
    let mut tt = HashTable::default();
    tt.resize(1);
    let hash = 0xABCD_0000_0000_0123u64;
    let mov = Move { from: 12, to: 28, flag: 1, pc: 2 };
    assert!(tt.probe(hash, 0).is_none());
    tt.push(hash, mov, 5, Bound::EXACT, 37, 3);
    let e = tt.probe(hash, 3).expect("stored");
    assert_eq!(e.key, 0xABCD);
    assert_eq!(e.best_move, mov.to_short());
    assert_eq!(e.score(), 37);
    assert_eq!(e.depth(), 5);
    assert_eq!(e.bound(), Bound::EXACT);
    assert!(tt.probe(0x1111_0000_0000_0123, 3).is_none());
}

#[test]
fn mate_scores_are_relative_to_the_node() {
    let mut tt = HashTable::default();
    tt.resize(1);
    let hash = 0x7777_0000_0000_0042u64;
    let mate = Score::MAX - 10;
    tt.push(hash, Move::null(), 3, Bound::LOWER, mate, 4);
    let raw = HashEntry::from_internal(tt.table[0x42]);
    assert_eq!(raw.score as i32, mate + 4);
    assert_eq!(tt.probe(hash, 4).unwrap().score(), mate);
    assert_eq!(tt.probe(hash, 6).unwrap().score(), mate + 4 - 6);
    tt.push(hash, Move::null(), 3, Bound::UPPER, -mate, 4);
    assert_eq!(tt.probe(hash, 4).unwrap().score(), -mate);
}

#[test]
fn deeper_entries_survive() {
    let mut tt = HashTable::default();
    tt.resize(1);
    let hash = 0x0101_0000_0000_0007u64;
    tt.push(hash, Move::null(), 10, Bound::EXACT, 1, 1);
    tt.push(hash, Move::null(), 2, Bound::EXACT, 2, 1);
    assert_eq!(tt.probe(hash, 1).unwrap().score(), 1);
    tt.push(hash, Move::null(), 2, Bound::EXACT, 3, 0);
    assert_eq!(tt.probe(hash, 0).unwrap().score(), 3);
}

#[test]
fn history_gravity() {
    let mut h = HistoryTable::default();
    let m = Move { from: 1, to: 18, flag: 0, pc: 3 };
    h.push(m, 0, 1600);
    assert_eq!(h.get_score(0, m), 1600);
    h.push(m, 0, 1600);
    assert_eq!(h.get_score(0, m), 1600 + 1600 - 1600 * 1600 / 16384);
    h.push(m, 1, -800);
    assert_eq!(h.get_score(1, m), -800);
    for _ in 0..200 {
        h.push(m, 0, 16384);
    }
    assert_eq!(h.get_score(0, m), 16384);
    h.age();
    assert_eq!(h.get_score(0, m), 8192);
    assert_eq!(h.get_score(1, m), -400);
    h.push_counter(0, m, Move { from: 2, to: 3, flag: 0, pc: 4 });
    assert_eq!(h.get_counter(0, m).to, 3);
    h.clear();
    assert_eq!(h.get_score(0, m), 0);
    assert_eq!(h.get_counter(0, m), Move::null());
}

#[test]
fn node_counts() {
    let mut n = NodeTable::default();
    let m = Move { from: 1, to: 18, flag: 0, pc: 3 };
    n.update(m, 5);
    n.update(m, 7);
    assert_eq!(n.get(m), 12);
    n.update(m, u64::MAX);
    assert_eq!(n.get(m), u64::MAX);
}

#[test]
fn killers_shift() {
    let mut p = PlyTable::default();
    let a = Move { from: 1, to: 18, flag: 0, pc: 3 };
    let b = Move { from: 6, to: 21, flag: 0, pc: 3 };
    p.push_killer(a, 3);
    p.push_killer(b, 3);
    assert_eq!(p.table[2].killers, [b, a]);
    p.clear_killers();
    assert_eq!(p.table[2].killers, [Move::null(), Move::null()]);
}

#[test]
fn move_list_picks_best_first() {
    let mut list = MoveList::zeroed();
    let mut scores = [0i32; 252];
    for (i, s) in [5, 9, 9, 1].iter().enumerate() {
        list.push(i as u8, 10 + i as u8, 0, 2);
        scores[i] = *s;
    }
    assert_eq!(list.len(), 4);
    let (m, s) = list.pick(&mut scores).unwrap();
    assert_eq!((m.from, s), (1, 9));
    let (m, s) = list.pick(&mut scores).unwrap();
    assert_eq!((m.from, s), (2, 9));
    let (m, s) = list.pick(&mut scores).unwrap();
    assert_eq!((m.from, s), (0, 5));
    let (m, s) = list.pick(&mut scores).unwrap();
    assert_eq!((m.from, s), (3, 1));
    assert!(list.pick(&mut scores).is_none());
    let mut other = MoveList::zeroed();
    other.add(Move { from: 7, to: 8, flag: 0, pc: 2 });
    list.copy_in(Move { from: 1, to: 2, flag: 0, pc: 2 }, &other);
    assert_eq!(list.len(), 2);
    assert_eq!(list.get(1).from, 7);
    list.clear();
    assert_eq!(list.len(), 0);
}

#[test]
fn probes_at_any_ply_shift_mate_scores() {
    let mut tt = HashTable::default();
    tt.resize(1);
    let hash = 0x1234_0000_0000_0007u64;
    let mate = Score::MAX - 20;
    tt.push(hash, Move::null(), 2, Bound::EXACT, mate, 0);
    assert_eq!(tt.probe(hash, -5).unwrap().score(), mate + 5);
    assert_eq!(tt.probe(hash, 0).unwrap().score(), mate);
    tt.push(hash, Move::null(), 2, Bound::EXACT, 150, -3);
    assert_eq!(tt.probe(hash, -3).unwrap().score(), 150);
    tt.age_up();
    assert_eq!(tt.get_age(), 1);
    tt.clear();
    assert!(tt.probe(hash, 0).is_none());
    assert_eq!(tt.get_age(), 0);
}

#[test]
fn replacement_compares_in_byte_arithmetic() {
    let mut tt = HashTable::default();
    tt.resize(1);
    let hash = 0x4321_0000_0000_0009u64;
    tt.push(hash, Move::null(), 10, Bound::EXACT, 5, 1);
    tt.age_up();
    // a negative depth reads as a large byte, and adding the age difference wraps around
    tt.push(hash, Move::null(), -1, Bound::EXACT, 7, 1);
    assert_eq!(tt.probe(hash, 1).unwrap().depth(), 10);
    tt.push(hash, Move::null(), 3, Bound::EXACT, 9, 1);
    assert_eq!(tt.probe(hash, 1).unwrap().depth(), 10);
    tt.push(hash, Move::null(), 9, Bound::EXACT, 11, 1);
    assert_eq!(tt.probe(hash, 1).unwrap().depth(), 9);
}
