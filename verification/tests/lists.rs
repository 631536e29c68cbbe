use keysig::keyword::{Keyword, KeywordExt};
use keysig::keyword_list::{
    copy_extlist, copy_list, delete_list, merge, mergesort_extlist, mergesort_list,
    KeywordExt_List, Keyword_List, LessByLineno,
};

fn kw(text: &str, lineno: u32) -> Keyword {
    Keyword::new(text.as_bytes().to_vec(), Vec::new(), lineno)
}

fn list_of(items: Vec<Keyword>) -> Keyword_List {
    let mut out = Keyword_List::Nil;
    for k in items.into_iter().rev() {
        out = Keyword_List::Cons(k, Box::new(out));
    }
    out
}

fn texts_and_linenos(list: &Keyword_List) -> Vec<(String, u32)> {
    let mut out = Vec::new();
    let mut cur = list;
    while let Keyword_List::Cons(k, rest) = cur {
        out.push((String::from_utf8(k.allchars.clone()).unwrap(), k.lineno));
        cur = rest;
    }
    out
}

#[test]
fn new_first_rest() {
    let l = Keyword_List::new(kw("one", 1));
    assert_eq!(l.first().allchars, b"one".to_vec());
    assert!(matches!(l.rest(), Keyword_List::Nil));
}

#[test]
fn mergesort_is_stable() {
    // sorting [(b,1), (a,1), (c,2)] by ascending key keeps the equal-key
    // pair in its original relative order
    let l = list_of(vec![kw("b", 1), kw("a", 1), kw("c", 2)]);
    let sorted = mergesort_list(l, &LessByLineno);
    assert_eq!(
        texts_and_linenos(&sorted),
        vec![
            ("b".to_string(), 1),
            ("a".to_string(), 1),
            ("c".to_string(), 2)
        ]
    );
}

#[test]
fn mergesort_orders_by_key() {
    let l = list_of(vec![kw("d", 4), kw("a", 1), kw("c", 3), kw("b", 2), kw("e", 5)]);
    let sorted = mergesort_list(l, &LessByLineno);
    assert_eq!(
        texts_and_linenos(&sorted)
            .iter()
            .map(|p| p.1)
            .collect::<Vec<u32>>(),
        vec![1, 2, 3, 4, 5]
    );
}

#[test]
fn merge_prefers_the_first_list_on_ties() {
    let l1 = list_of(vec![kw("x", 1), kw("y", 3)]);
    let l2 = list_of(vec![kw("p", 1), kw("q", 2)]);
    let merged = merge(l1, l2, &LessByLineno);
    assert_eq!(
        texts_and_linenos(&merged),
        vec![
            ("x".to_string(), 1),
            ("p".to_string(), 1),
            ("q".to_string(), 2),
            ("y".to_string(), 3)
        ]
    );
}

#[test]
fn merge_with_empty_lists() {
    let l1 = list_of(vec![kw("a", 1)]);
    let merged = merge(l1, Keyword_List::Nil, &LessByLineno);
    assert_eq!(texts_and_linenos(&merged).len(), 1);
    let l2 = list_of(vec![kw("b", 2)]);
    let merged = merge(Keyword_List::Nil, l2, &LessByLineno);
    assert_eq!(texts_and_linenos(&merged).len(), 1);
}

#[test]
fn copy_list_duplicates_payloads() {
    let l = list_of(vec![kw("a", 1), kw("b", 2)]);
    let copy = copy_list(&l);
    assert_eq!(texts_and_linenos(&copy), texts_and_linenos(&l));
    delete_list(l);
    assert_eq!(texts_and_linenos(&copy).len(), 2);
}

#[test]
fn ext_list_sort_and_copy() {
    let mk = |text: &str, lineno: u32| KeywordExt::new(kw(text, lineno));
    let mut l = KeywordExt_List::Nil;
    for e in vec![mk("c", 3), mk("a", 1), mk("b", 2)] {
        l = KeywordExt_List::Cons(e, Box::new(l));
    }
    // list order is b, a, c by construction (last consed first)
    let sorted = mergesort_extlist(l, &LessByLineno);
    let copy = copy_extlist(&sorted);
    let mut linenos = Vec::new();
    let mut cur = &copy;
    while let KeywordExt_List::Cons(e, rest) = cur {
        linenos.push(e.keyword.lineno);
        cur = rest;
    }
    assert_eq!(linenos, vec![1, 2, 3]);
    assert_eq!(sorted.first().keyword.lineno, 1);
    assert_eq!(sorted.rest().first().keyword.lineno, 2);
}

#[test]
fn ext_list_new_first_rest() {
    let l = KeywordExt_List::new(KeywordExt::new(kw("k", 9)));
    assert_eq!(l.first().keyword.lineno, 9);
    assert!(matches!(l.rest(), KeywordExt_List::Nil));
}
