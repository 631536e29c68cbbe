use keysig::positions::{Positions, PositionsError, EOS, LASTCHAR, MAX_KEY_POS, MAX_SIZE};

fn entries(p: &Positions) -> Vec<i32> {
    let mut out = Vec::new();
    let storage = p.pointer();
    for i in 0..p.get_size() {
        out.push(storage[i]);
    }
    out
}

#[test]
fn default_is_empty() {
    let p = Positions::default();
    assert_eq!(p.get_size(), 0);
    assert!(!p.is_useall());
}

#[test]
fn add_keeps_descending_order() {
    let mut p = Positions::default();
    p.add(3).unwrap();
    p.add(0).unwrap();
    p.add(7).unwrap();
    p.add(LASTCHAR).unwrap();
    assert_eq!(entries(&p), vec![LASTCHAR, 7, 3, 0]);
}

#[test]
fn add_then_contains() {
    let mut p = Positions::default();
    p.add(5).unwrap();
    assert!(p.contains(5));
    assert!(!p.contains(4));
}

#[test]
fn add_then_remove_restores_exactly() {
    let mut p = Positions::default();
    p.add(9).unwrap();
    p.add(2).unwrap();
    p.add(14).unwrap();
    let before = entries(&p);
    p.add(6).unwrap();
    assert!(p.contains(6));
    p.remove(6).unwrap();
    assert_eq!(entries(&p), before);
}

#[test]
fn add_duplicate_is_refused() {
    let mut p = Positions::default();
    p.add(4).unwrap();
    assert_eq!(p.add(4), Err(PositionsError::Duplicate));
    assert_eq!(entries(&p), vec![4]);
}

#[test]
fn add_overflow_is_refused() {
    let mut p = Positions::default();
    for pos in 0..MAX_KEY_POS {
        p.add(pos).unwrap();
    }
    p.add(LASTCHAR).unwrap();
    assert_eq!(p.get_size(), MAX_SIZE);
    assert_eq!(p.add(0), Err(PositionsError::Overflow));
}

#[test]
fn remove_not_found_is_refused() {
    let mut p = Positions::default();
    p.add(1).unwrap();
    assert_eq!(p.remove(2), Err(PositionsError::NotFound));
    let mut empty = Positions::default();
    assert_eq!(empty.remove(0), Err(PositionsError::NotFound));
}

#[test]
fn set_useall_materializes_every_position() {
    let mut p = Positions::default();
    p.set_useall(true);
    assert!(p.is_useall());
    assert_eq!(p.get_size(), MAX_KEY_POS as usize);
    assert!(p.contains(0));
    assert!(p.contains(MAX_KEY_POS - 1));
    assert!(!p.contains(LASTCHAR));
    p.set_useall(false);
    assert!(!p.is_useall());
    assert_eq!(p.get_size(), MAX_KEY_POS as usize);
}

#[test]
fn bulk_load_and_sort() {
    let mut p = Positions::default();
    p.set_position(0, 2);
    p.set_position(1, 9);
    p.set_position(2, LASTCHAR);
    p.set_position(3, 4);
    p.set_size(4);
    assert!(p.sort());
    assert_eq!(entries(&p), vec![LASTCHAR, 9, 4, 2]);
}

#[test]
fn sort_reports_duplicates() {
    let mut p = Positions::default();
    p.set_position(0, 3);
    p.set_position(1, 1);
    p.set_position(2, 3);
    p.set_size(3);
    assert!(!p.sort());
}

#[test]
fn iterator_totality_with_clipping() {
    let mut p = Positions::default();
    p.add(1).unwrap();
    p.add(4).unwrap();
    p.add(9).unwrap();
    p.add(LASTCHAR).unwrap();
    // keyword length 5: positions 1 and 4 survive, 9 is clipped, LASTCHAR stays
    let mut it = p.iterator(5);
    assert_eq!(it.remaining(), 3);
    assert_eq!(it.next(), 1);
    assert_eq!(it.next(), 4);
    assert_eq!(it.next(), LASTCHAR);
    assert_eq!(it.next(), EOS);
    assert_eq!(it.remaining(), 0);
}

#[test]
fn iterator_skips_lastchar_on_empty_keyword() {
    let mut p = Positions::default();
    p.add(LASTCHAR).unwrap();
    let mut it = p.iterator(0);
    assert_eq!(it.remaining(), 0);
    assert_eq!(it.next(), EOS);
}

#[test]
fn reviterator_yields_descending() {
    let mut p = Positions::default();
    p.add(1).unwrap();
    p.add(4).unwrap();
    p.add(LASTCHAR).unwrap();
    let mut it = p.reviterator(10);
    assert_eq!(it.remaining(), 3);
    assert_eq!(it.next(), LASTCHAR);
    assert_eq!(it.next(), 4);
    assert_eq!(it.next(), 1);
    assert_eq!(it.next(), EOS);
}

#[test]
fn print_collapses_runs_and_marks_lastchar() {
    let mut p = Positions::default();
    p.add(0).unwrap();
    p.add(1).unwrap();
    p.add(3).unwrap();
    p.add(5).unwrap();
    p.add(6).unwrap();
    p.add(7).unwrap();
    p.add(LASTCHAR).unwrap();
    // 1-based rendering: 0,1 -> 1-2; 3 -> 4; 5,6,7 -> 6-8; $ last
    assert_eq!(p.print(), "1-2,4,6-8,$");
}

#[test]
fn print_useall_is_star() {
    let mut p = Positions::default();
    p.set_useall(true);
    assert_eq!(p.print(), "*");
}

#[test]
fn print_single_and_empty() {
    let mut p = Positions::default();
    assert_eq!(p.print(), "");
    p.add(11).unwrap();
    assert_eq!(p.print(), "12");
}
