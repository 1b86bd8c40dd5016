use bcl::config::Config;
use bcl::hash_table::{FindAction, FindState, HashEntry, HashTable, InsertAction, InsertEvent, InsertState};
use rand::{Rng, SeedableRng, StdRng};
use std::collections::HashMap;

// The symmetric heaps of all PEs, addressed by (PE, address).
struct Mem {
    words: HashMap<(usize, usize), i64>,
    entries: HashMap<(usize, usize), HashEntry<i64, i64>>,
}

fn mem() -> Mem {
    Mem { words: HashMap::new(), entries: HashMap::new() }
}

fn insert(t: &HashTable<i64, i64>, m: &mut Mem, key: i64, value: i64) -> bool {
    let hash = t.get_hash(&key);
    let mut st = InsertState::Reserve { probe: 0, current: t.free_flag };
    loop {
        let ev = match t.insert_action(&key, &value, hash, st) {
            InsertAction::Finish(b) => return b,
            InsertAction::Swap { ptr, cond, value: v } => {
                let w = m.words.entry((ptr.rank, ptr.ptr)).or_insert(0);
                let old = *w;
                if old == cond {
                    *w = v;
                }
                InsertEvent::Value(old)
            }
            InsertAction::Get(p) => {
                InsertEvent::Entry(*m.entries.get(&(p.rank, p.ptr)).unwrap_or(&HashEntry::null()))
            }
            InsertAction::Put(p, e) => {
                m.entries.insert((p.rank, p.ptr), e);
                InsertEvent::Written
            }
        };
        st = t.insert(&key, st, ev);
    }
}

fn find(t: &HashTable<i64, i64>, m: &Mem, key: i64, value: &mut i64) -> bool {
    let hash = t.get_hash(&key);
    let mut st = FindState::Status { probe: 0 };
    loop {
        let ev = match t.find_action(hash, st) {
            FindAction::Finish(o) => {
                return match o {
                    Some(v) => {
                        *value = v;
                        true
                    }
                    None => false,
                }
            }
            FindAction::Fetch(p) => InsertEvent::Value(*m.words.get(&(p.rank, p.ptr)).unwrap_or(&0)),
            FindAction::Get(p) => {
                InsertEvent::Entry(*m.entries.get(&(p.rank, p.ptr)).unwrap_or(&HashEntry::null()))
            }
        };
        st = t.find(&key, st, ev);
    }
}

#[test]
fn same_entry_test() {
    let mut config = Config::init(32, 0, 1, 4096);
    let rankn: i64 = config.rankn as i64;
    let rank: i64 = config.rank as i64;

    let n: i64 = 100;
    let m: i64 = 100;

    let mut hash_table_ref: HashMap<i64, i64> = HashMap::new();
    let hash_table_lfz: HashTable<i64, i64> = HashTable::new(&mut config, (n * 5) as usize);
    let mut memory = mem();

    let mut rng: StdRng = SeedableRng::from_seed([233; 32]);

    for _ in 0..n {
        let key: i64 = rng.gen_range(-m, m);
        let value: i64 = rng.gen_range(-m, m);

        let success = insert(&hash_table_lfz, &mut memory, key, value);
        hash_table_ref.insert(key.clone(), value.clone());

        if success == false {
            panic!("HashTable({}) Agh! insertion failed", rank);
        }
    }

    for i in -m..m {
        if (rank - i) % rankn == 0 {
            let v_ref = hash_table_ref.get(&i);
            let v_ref = match v_ref {
                Some(&v) => v,
                None => std::i64::MAX,
            };

            let mut v_lfz: i64 = 0;
            let success = find(&hash_table_lfz, &memory, i, &mut v_lfz);

            if !success {
                v_lfz = std::i64::MAX;
            }

            assert_eq!(v_ref, v_lfz);
        }
    }
}

#[test]
fn new_lays_out_blocks() {
    let mut config = Config::init(1, 1, 2, 4096);
    let t: HashTable<i64, i64> = HashTable::new(&mut config, 9);
    assert_eq!(t.local_size, 5);
    assert_eq!(t.global_size, 10);
    assert_eq!((t.free_flag, t.reserved_flag, t.ready_flag), (0, 1, 2));
    assert_eq!((t.used[1].rank, t.used[1].ptr), (1, 4096));
    assert_eq!((t.hash_table[1].rank, t.hash_table[1].ptr), (1, 4096 + 64));
    assert!(t.used[0].is_null() && t.hash_table[0].is_null());
}

fn two_pe_table() -> HashTable<i64, i64> {
    let mut c0 = Config::init(1, 0, 2, 4096);
    let mut t: HashTable<i64, i64> = HashTable::new(&mut c0, 4);
    let mut c1 = Config::init(1, 1, 2, 4096);
    let t1: HashTable<i64, i64> = HashTable::new(&mut c1, 4);
    t.used[1] = t1.used[1];
    t.hash_table[1] = t1.hash_table[1];
    t
}

#[test]
fn slots_map_to_pes() {
    let t = two_pe_table();
    assert_eq!(t.slot_used_ptr(1).ptr, 4096 + 8);
    assert_eq!(t.slot_used_ptr(1).rank, 0);
    assert_eq!(t.slot_used_ptr(3).rank, 1);
    assert_eq!(t.slot_used_ptr(3).ptr, 4096 + 8);
    assert_eq!(t.slot_entry_ptr(2).rank, 1);
    assert_eq!(t.slot_entry_ptr(2).ptr, t.hash_table[1].ptr);
    assert_eq!(t.probe_slot_of(7, 2), 1);
}

#[test]
fn insert_updates_existing_key() {
    let t = two_pe_table();
    let mut m = mem();
    assert!(insert(&t, &mut m, 5, 50));
    assert!(insert(&t, &mut m, 5, 51));
    let mut v = 0;
    assert!(find(&t, &m, 5, &mut v));
    assert_eq!(v, 51);
    assert!(!find(&t, &m, 6, &mut v));
    assert_eq!(v, 51);
}

#[test]
fn insert_fails_when_full() {
    let t = two_pe_table();
    let mut m = mem();
    for k in 0..4 {
        assert!(insert(&t, &mut m, k, k * 10));
    }
    assert!(!insert(&t, &mut m, 100, 1));
    for k in 0..4 {
        let mut v = 0;
        assert!(find(&t, &m, k, &mut v));
        assert_eq!(v, k * 10);
    }
    let mut v = 0;
    assert!(!find(&t, &m, 100, &mut v));
}

#[test]
fn insert_steps_through_a_free_slot() {
    let t = two_pe_table();
    let st = InsertState::Reserve { probe: 0, current: 0 };
    match t.insert_action(&1, &2, 0, st) {
        InsertAction::Swap { ptr, cond, value } => {
            assert_eq!((ptr.rank, ptr.ptr), (0, 4096));
            assert_eq!((cond, value), (0, 1));
        }
        _ => panic!("expected a swap"),
    }
    let st = t.insert(&1, st, InsertEvent::Value(0));
    assert!(st == InsertState::Write { probe: 0 });
    let st = t.insert(&1, st, InsertEvent::Written);
    assert!(st == InsertState::Publish { probe: 0 });
    let st = t.insert(&1, st, InsertEvent::Value(1));
    assert!(st == InsertState::Done(true));
    // a ready slot with another key is released and the next slot probed
    let st = t.insert(&1, InsertState::Reserve { probe: 0, current: 0 }, InsertEvent::Value(2));
    assert!(st == InsertState::Reserve { probe: 0, current: 2 });
    let st = t.insert(&1, st, InsertEvent::Value(2));
    assert!(st == InsertState::Compare { probe: 0 });
    let st = t.insert(&1, st, InsertEvent::Entry(HashEntry::new(9, 9)));
    assert!(st == InsertState::Release { probe: 0 });
    let st = t.insert(&1, st, InsertEvent::Value(1));
    assert!(st == InsertState::Reserve { probe: 1, current: 0 });
    // after the last probe the insert gives up
    let st = t.insert(&1, InsertState::Release { probe: 3 }, InsertEvent::Value(1));
    assert!(st == InsertState::Done(false));
}

#[test]
fn hash_entry_accessors() {
    let mut e: HashEntry<i64, char> = HashEntry::new(3, 'x');
    assert_eq!(e.get_key(), 3);
    assert_eq!(e.get_value(), 'x');
    e.set(&4, &'y');
    assert_eq!((e.get_key(), e.get_value()), (4, 'y'));
    let z: HashEntry<i64, char> = HashEntry::null();
    assert_eq!((z.key, z.value), (0, '\0'));
}

#[test]
fn insert_leaves_other_keys_mapped() {
    let t = two_pe_table();
    let mut m = mem();
    assert!(insert(&t, &mut m, 1, 10));
    assert!(insert(&t, &mut m, 5, 50));
    assert!(insert(&t, &mut m, 1, 11));
    let mut v = 0;
    assert!(find(&t, &m, 5, &mut v));
    assert_eq!(v, 50);
    assert!(find(&t, &m, 1, &mut v));
    assert_eq!(v, 11);
    assert!(!find(&t, &m, 9, &mut v));
}

// One remote operation of an insert in state `st` against the simulated
// memory, and the state after it.
fn insert_step(t: &HashTable<i64, i64>, m: &mut Mem, key: i64, value: i64, hash: u64, st: InsertState) -> InsertState {
    let ev = match t.insert_action(&key, &value, hash, st) {
        InsertAction::Finish(_) => return st,
        InsertAction::Swap { ptr, cond, value: v } => {
            let w = m.words.entry((ptr.rank, ptr.ptr)).or_insert(0);
            let old = *w;
            if old == cond {
                *w = v;
            }
            InsertEvent::Value(old)
        }
        InsertAction::Get(p) => InsertEvent::Entry(*m.entries.get(&(p.rank, p.ptr)).unwrap_or(&HashEntry::null())),
        InsertAction::Put(p, e) => {
            m.entries.insert((p.rank, p.ptr), e);
            InsertEvent::Written
        }
    };
    t.insert(&key, st, ev)
}

#[test]
fn concurrent_inserts_of_one_pair_act_as_one() {
    let t = two_pe_table();
    let mut m = mem();
    assert!(insert(&t, &mut m, 1, 10));
    // three PEs insert (5, 50) at once, their steps interleaved in turn
    let hash = t.get_hash(&5);
    let mut sts = vec![InsertState::Reserve { probe: 0, current: 0 }; 3];
    for _ in 0..200 {
        for p in 0..3 {
            sts[p] = insert_step(&t, &mut m, 5, 50, hash, sts[p]);
        }
    }
    for p in 0..3 {
        assert!(sts[p] == InsertState::Done(true));
    }
    let mut v = 0;
    assert!(find(&t, &m, 5, &mut v));
    assert_eq!(v, 50);
    assert!(find(&t, &m, 1, &mut v));
    assert_eq!(v, 10);
    // exactly one slot holds the key
    let held = m.entries.values().filter(|e| e.key == 5).count();
    assert_eq!(held, 1);
}

#[test]
fn concurrent_inserts_of_different_pairs_are_atomic() {
    let t = two_pe_table();
    let mut m = mem();
    // three PEs insert different pairs, one of them a key already present
    assert!(insert(&t, &mut m, 2, 20));
    let pairs = [(2i64, 21i64), (6, 60), (9, 90)];
    let hashes: Vec<u64> = pairs.iter().map(|(k, _)| t.get_hash(k)).collect();
    let mut sts = vec![InsertState::Reserve { probe: 0, current: 0 }; 3];
    for round in 0..300 {
        for p in 0..3 {
            // a varying interleaving: PE p skips some turns
            if (round + p) % (p + 2) != 0 {
                sts[p] = insert_step(&t, &mut m, pairs[p].0, pairs[p].1, hashes[p], sts[p]);
            }
        }
    }
    for p in 0..3 {
        assert!(sts[p] == InsertState::Done(true));
    }
    for (k, v) in pairs.iter() {
        let mut x = 0;
        assert!(find(&t, &m, *k, &mut x));
        assert_eq!(x, *v);
    }
    // each key is held by exactly one slot
    for (k, _) in pairs.iter() {
        assert_eq!(m.entries.values().filter(|e| e.key == *k).count(), 1);
    }
}
