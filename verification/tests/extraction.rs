use keysig::keyword::{sort_char_set, Keyword, KeywordExt};
use keysig::positions::{Positions, LASTCHAR};

fn kw(text: &str) -> Keyword {
    Keyword::new(text.as_bytes().to_vec(), Vec::new(), 1)
}

#[test]
fn keyword_new_keeps_fields() {
    let k = Keyword::new(b"abc".to_vec(), b"attr".to_vec(), 7);
    assert_eq!(k.allchars, b"abc".to_vec());
    assert_eq!(k.rest, b"attr".to_vec());
    assert_eq!(k.lineno, 7);
}

#[test]
fn tuple_extraction_is_positional() {
    // positions {0, 2} over "cab": ordered extraction yields ['c', 'b']
    let mut p = Positions::default();
    p.add(0).unwrap();
    p.add(2).unwrap();
    let mut e = KeywordExt::new(kw("cab"));
    e.init_selchars_tuple(&p, None);
    assert_eq!(e.selchars, vec!['c' as u32, 'b' as u32]);
}

#[test]
fn multiset_extraction_is_sorted() {
    // the same characters, sorted ascending
    let mut p = Positions::default();
    p.add(0).unwrap();
    p.add(2).unwrap();
    let mut e = KeywordExt::new(kw("cab"));
    e.init_selchars_multiset(&p, None, None);
    assert_eq!(e.selchars, vec!['b' as u32, 'c' as u32]);
}

#[test]
fn lastchar_resolves_to_final_character() {
    let mut p = Positions::default();
    p.add(0).unwrap();
    p.add(LASTCHAR).unwrap();
    let mut e = KeywordExt::new(kw("word"));
    e.init_selchars_tuple(&p, None);
    assert_eq!(e.selchars, vec!['w' as u32, 'd' as u32]);
}

#[test]
fn positions_beyond_length_are_skipped() {
    let mut p = Positions::default();
    p.add(1).unwrap();
    p.add(9).unwrap();
    let mut e = KeywordExt::new(kw("ab"));
    e.init_selchars_tuple(&p, None);
    assert_eq!(e.selchars, vec!['b' as u32]);
}

#[test]
fn increments_shift_characters() {
    let mut p = Positions::default();
    p.add(0).unwrap();
    p.add(1).unwrap();
    let inc: Vec<u32> = vec![1, 2];
    let mut e = KeywordExt::new(kw("ab"));
    e.init_selchars_multiset(&p, None, Some(&inc));
    assert_eq!(e.selchars, vec!['a' as u32 + 1, 'b' as u32 + 2]);
}

#[test]
fn unification_folds_case() {
    // a unification table that maps upper-case ASCII onto lower-case
    let mut unify: Vec<u32> = (0..256).collect();
    for c in 65..91u32 {
        unify[c as usize] = c + 32;
    }
    let mut p = Positions::default();
    p.add(0).unwrap();
    p.add(1).unwrap();
    let mut upper = KeywordExt::new(kw("AB"));
    let mut lower = KeywordExt::new(kw("ab"));
    upper.init_selchars_tuple(&p, Some(&unify));
    lower.init_selchars_tuple(&p, Some(&unify));
    assert_eq!(upper.selchars, lower.selchars);
    assert_eq!(upper.selchars, vec!['a' as u32, 'b' as u32]);
}

#[test]
fn delete_selchars_clears_only_the_buffer() {
    let mut p = Positions::default();
    p.add(0).unwrap();
    let mut e = KeywordExt::new(kw("xy"));
    e.init_selchars_tuple(&p, None);
    assert_eq!(e.selchars.len(), 1);
    e.delete_selchars();
    assert!(e.selchars.is_empty());
    assert_eq!(e.keyword.allchars, b"xy".to_vec());
}

#[test]
fn sort_char_set_sorts_in_place() {
    let mut v: Vec<u32> = vec![9, 3, 7, 3, 1];
    sort_char_set(&mut v);
    assert_eq!(v, vec![1, 3, 3, 7, 9]);
}

#[test]
fn extraction_recomputes_after_position_change() {
    let mut p = Positions::default();
    p.add(0).unwrap();
    let mut e = KeywordExt::new(kw("cab"));
    e.init_selchars_tuple(&p, None);
    assert_eq!(e.selchars, vec!['c' as u32]);
    p.add(1).unwrap();
    e.init_selchars_tuple(&p, None);
    assert_eq!(e.selchars, vec!['c' as u32, 'a' as u32]);
}
