use keysig::hash_table::{hashpjw, Hash_Table};
use keysig::keyword::{Keyword, KeywordExt};
use keysig::positions::Positions;

fn ext(text: &str, positions: &Positions) -> KeywordExt {
    let mut e = KeywordExt::new(Keyword::new(text.as_bytes().to_vec(), Vec::new(), 1));
    e.init_selchars_tuple(positions, None);
    e
}

fn occupied_slots(t: &Hash_Table) -> usize {
    t.table.iter().filter(|s| s.is_some()).count()
}

#[test]
fn new_sizes_to_a_power_of_two() {
    let t = Hash_Table::new(1, false);
    // smallest power of two at least 10 * 1
    assert_eq!(t.table.len(), 16);
    assert_eq!(t.log_size, 4);
    assert_eq!(t.collisions, 0);
    assert_eq!(occupied_slots(&t), 0);
    let t = Hash_Table::new(100, false);
    assert_eq!(t.table.len(), 1024);
}

#[test]
fn insert_detects_duplicate_signatures() {
    let mut p = Positions::default();
    p.add(0).unwrap();
    p.add(1).unwrap();
    // "abcd" and "abce" share the signature "ab" and the length 4
    let arena = vec![ext("abcd", &p), ext("abce", &p), ext("xy", &p)];
    let mut t = Hash_Table::new(arena.len(), false);
    assert_eq!(t.insert(&arena, 0), None);
    assert_eq!(t.insert(&arena, 2), None);
    assert_eq!(t.insert(&arena, 1), Some(0));
}

#[test]
fn insert_twice_is_idempotent() {
    let mut p = Positions::default();
    p.add(0).unwrap();
    let arena = vec![ext("word", &p)];
    let mut t = Hash_Table::new(arena.len(), false);
    assert_eq!(t.insert(&arena, 0), None);
    let filled = occupied_slots(&t);
    assert_eq!(filled, 1);
    assert_eq!(t.insert(&arena, 0), Some(0));
    assert_eq!(occupied_slots(&t), filled);
}

#[test]
fn length_tells_signatures_apart_unless_ignored() {
    let mut p = Positions::default();
    p.add(0).unwrap();
    // same first character, different lengths
    let arena = vec![ext("ab", &p), ext("abc", &p)];
    let mut strict = Hash_Table::new(arena.len(), false);
    assert_eq!(strict.insert(&arena, 0), None);
    assert_eq!(strict.insert(&arena, 1), None);
    let mut lax = Hash_Table::new(arena.len(), true);
    assert_eq!(lax.insert(&arena, 0), None);
    assert_eq!(lax.insert(&arena, 1), Some(0));
}

#[test]
fn equal_compares_signatures() {
    let mut p = Positions::default();
    p.add(0).unwrap();
    p.add(1).unwrap();
    let a = ext("abX", &p);
    let b = ext("abY", &p);
    let c = ext("ac", &p);
    let t = Hash_Table::new(4, false);
    assert!(t.equal(&a, &b));
    assert!(!t.equal(&a, &c));
}

#[test]
fn full_cycle_probing_fills_a_small_table() {
    // eight extensions with pairwise distinct signatures exhaust a table of
    // eight slots: the odd increment makes every probe sequence visit every
    // slot, so no insert cycles early.
    let mut p = Positions::default();
    p.add(0).unwrap();
    p.add(1).unwrap();
    let texts = ["aa", "ab", "ba", "bb", "ca", "cb", "da", "db"];
    let arena: Vec<KeywordExt> = texts.iter().map(|s| ext(s, &p)).collect();
    let mut t = Hash_Table {
        table: vec![None; 8],
        log_size: 3,
        ignore_length: false,
        collisions: 0,
    };
    for i in 0..8 {
        assert_eq!(t.insert(&arena, i), None);
        assert_eq!(occupied_slots(&t), i + 1);
    }
    assert_eq!(occupied_slots(&t), 8);
    // every slot holds a distinct arena index
    let mut seen = [false; 8];
    for slot in &t.table {
        let i = slot.unwrap();
        assert!(!seen[i]);
        seen[i] = true;
    }
}

#[test]
fn hashpjw_is_deterministic_and_spreads() {
    let a = hashpjw(&vec![97, 98, 99]);
    let b = hashpjw(&vec![97, 98, 99]);
    assert_eq!(a, b);
    let c = hashpjw(&vec![99, 98, 97]);
    assert_ne!(a, c);
    assert_eq!(hashpjw(&Vec::new()), 0);
}

#[test]
fn dump_lists_occupied_slots() {
    let mut p = Positions::default();
    p.add(0).unwrap();
    p.add(1).unwrap();
    let arena = vec![ext("key", &p)];
    let mut t = Hash_Table::new(arena.len(), false);
    assert_eq!(t.insert(&arena, 0), None);
    let text = t.dump(&arena);
    assert!(text.contains("ke, key"));
}
