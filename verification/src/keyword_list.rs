//! Keyword lists and stable merge sort.
//!
//! Lists are singly-linked ownership chains of keyword records (or keyword
//! extensions), sorted by a caller-supplied ordering predicate with a
//! genuine merge sort: ties keep the first list's element first, so the sort
//! is stable and generated output stays reproducible.

use vstd::prelude::*;

verus! {

use crate::keyword::{Keyword, KeywordExt};
use vstd::seq_lib::lemma_multiset_commutative;

/// A caller-supplied strict ordering predicate over list elements, with its
/// specification-level meaning.
pub trait Less<T> {
    /// What the predicate means.
    spec fn less_spec(&self, a: &T, b: &T) -> bool;

    /// Whether `a` orders strictly before `b`.
    fn less(&self, a: &T, b: &T) -> (r: bool)
        ensures
            r == self.less_spec(a, b),
    ;
}

/// The ordering predicate of a comparator, as a specification function.
pub open spec fn less_fn<T, C: Less<T>>(c: C) -> spec_fn(T, T) -> bool {
    |a: T, b: T| c.less_spec(&a, &b)
}

/// No element orders strictly before an earlier one.
pub open spec fn sorted_wrt<T>(s: Seq<T>, less: spec_fn(T, T) -> bool) -> bool {
    forall|i: int, j: int| 0 <= i < j < s.len() ==> !less(s[j], s[i])
}

/// A strict weak ordering: asymmetric, with transitive incomparability-or-
/// less (negative transitivity).  Any ordering by a key, such as a line
/// number or an occurrence count, satisfies it.
pub open spec fn strict_weak_ordering<T>(less: spec_fn(T, T) -> bool) -> bool {
    &&& forall|a: T, b: T| !(#[trigger] less(a, b) && less(b, a))
    &&& forall|a: T, b: T, c: T| !(#[trigger] less(a, b)) && !(#[trigger] less(b, c)) ==> !less(
        a,
        c,
    )
}

/// Stable two-way merge: takes from the second sequence only when its head
/// orders strictly before the first sequence's head, so ties prefer the
/// first sequence.
pub open spec fn merge_spec<T>(s1: Seq<T>, s2: Seq<T>, less: spec_fn(T, T) -> bool) -> Seq<T>
    decreases s1.len() + s2.len(),
{
    if s1.len() == 0 {
        s2
    } else if s2.len() == 0 {
        s1
    } else if less(s2[0], s1[0]) {
        seq![s2[0]] + merge_spec(s1, s2.drop_first(), less)
    } else {
        seq![s1[0]] + merge_spec(s1.drop_first(), s2, less)
    }
}

/// Merge sort: split in the middle (first half one longer on odd lengths),
/// sort both halves, merge.
pub open spec fn mergesort_spec<T>(s: Seq<T>, less: spec_fn(T, T) -> bool) -> Seq<T>
    decreases s.len(),
{
    if s.len() <= 1 {
        s
    } else {
        let mid = (s.len() + 1) as int / 2;
        merge_spec(mergesort_spec(s.take(mid), less), mergesort_spec(s.skip(mid), less), less)
    }
}

/// A merge holds exactly the elements of its two inputs, and is sorted when
/// they are and the predicate is a strict weak ordering.
pub proof fn lemma_merge_sorted<T>(s1: Seq<T>, s2: Seq<T>, less: spec_fn(T, T) -> bool)
    requires
        strict_weak_ordering(less),
        sorted_wrt(s1, less),
        sorted_wrt(s2, less),
    ensures
        merge_spec(s1, s2, less).to_multiset() == (s1 + s2).to_multiset(),
        sorted_wrt(merge_spec(s1, s2, less), less),
    decreases s1.len() + s2.len(),
{
    broadcast use vstd::seq_lib::group_to_multiset_ensures;

    let out = merge_spec(s1, s2, less);
    if s1.len() == 0 {
        assert(s1 + s2 =~= s2);
    } else if s2.len() == 0 {
        assert(s1 + s2 =~= s1);
    } else if less(s2[0], s1[0]) {
        let rest = merge_spec(s1, s2.drop_first(), less);
        assert(sorted_wrt(s2.drop_first(), less)) by {
            assert(forall|i: int|
                0 <= i < s2.len() - 1 ==> s2.drop_first()[i] == s2[i + 1]);
        }
        lemma_merge_sorted(s1, s2.drop_first(), less);
        assert(out =~= seq![s2[0]] + rest);
        assert(out.to_multiset() == (s1 + s2).to_multiset()) by {
            lemma_multiset_commutative(seq![s2[0]], rest);
            lemma_multiset_commutative(s1, s2.drop_first());
            lemma_multiset_commutative(s1, s2);
            assert(s2 =~= seq![s2[0]] + s2.drop_first());
            lemma_multiset_commutative(seq![s2[0]], s2.drop_first());
            assert(out.to_multiset() =~= (s1 + s2).to_multiset());
        }
        assert forall|i: int, j: int| 0 <= i < j < out.len() implies !less(out[j], out[i]) by {
            if i > 0 {
                assert(rest[i - 1] == out[i] && rest[j - 1] == out[j]);
            } else {
                let x = out[j];
                assert(rest[j - 1] == x);
                assert(rest.contains(x));
                assert(rest.to_multiset().contains(x));
                assert((s1 + s2.drop_first()).to_multiset().contains(x));
                assert((s1 + s2.drop_first()).contains(x));
                let w = choose|w: int|
                    0 <= w < (s1 + s2.drop_first()).len() && (s1 + s2.drop_first())[w] == x;
                if w < s1.len() {
                    assert(!less(s1[w], s1[0]) || w == 0);
                    if less(x, s2[0]) {
                        assert(!less(s2[0], x));
                        assert(!less(x, s1[0]));
                        assert(!less(s2[0], s1[0]));
                        assert(false);
                    }
                } else {
                    assert((s1 + s2.drop_first())[w] == s2[w - s1.len() + 1]);
                    assert(!less(s2[w - s1.len() + 1], s2[0]));
                }
            }
        }
    } else {
        let rest = merge_spec(s1.drop_first(), s2, less);
        assert(sorted_wrt(s1.drop_first(), less)) by {
            assert(forall|i: int|
                0 <= i < s1.len() - 1 ==> s1.drop_first()[i] == s1[i + 1]);
        }
        lemma_merge_sorted(s1.drop_first(), s2, less);
        assert(out =~= seq![s1[0]] + rest);
        assert(out.to_multiset() == (s1 + s2).to_multiset()) by {
            lemma_multiset_commutative(seq![s1[0]], rest);
            lemma_multiset_commutative(s1.drop_first(), s2);
            lemma_multiset_commutative(s1, s2);
            assert(s1 =~= seq![s1[0]] + s1.drop_first());
            lemma_multiset_commutative(seq![s1[0]], s1.drop_first());
            assert((seq![s1[0]] + s1.drop_first()).to_multiset() == seq![s1[0]].to_multiset().add(
                s1.drop_first().to_multiset(),
            ));
            assert(out.to_multiset() =~= (s1 + s2).to_multiset());
        }
        assert forall|i: int, j: int| 0 <= i < j < out.len() implies !less(out[j], out[i]) by {
            if i > 0 {
                assert(rest[i - 1] == out[i] && rest[j - 1] == out[j]);
            } else {
                let x = out[j];
                assert(rest[j - 1] == x);
                assert(rest.contains(x));
                assert(rest.to_multiset().contains(x));
                assert((s1.drop_first() + s2).to_multiset().contains(x));
                assert((s1.drop_first() + s2).contains(x));
                let w = choose|w: int|
                    0 <= w < (s1.drop_first() + s2).len() && (s1.drop_first() + s2)[w] == x;
                if w < s1.len() - 1 {
                    assert((s1.drop_first() + s2)[w] == s1[w + 1]);
                    assert(!less(s1[w + 1], s1[0]));
                } else {
                    assert((s1.drop_first() + s2)[w] == s2[w - s1.len() + 1]);
                    let y = s2[w - s1.len() + 1];
                    assert(!less(y, s2[0]));
                    assert(!less(s2[0], s1[0]));
                    assert(!less(y, s1[0]));
                }
            }
        }
    }
}

/// A merge sort returns a sorted permutation of its input whenever the
/// predicate is a strict weak ordering; which permutation it is (the stable
/// one) is pinned by `mergesort_spec` itself.
pub proof fn lemma_mergesort_sorted_permutation<T>(s: Seq<T>, less: spec_fn(T, T) -> bool)
    requires
        strict_weak_ordering(less),
    ensures
        sorted_wrt(mergesort_spec(s, less), less),
        mergesort_spec(s, less).to_multiset() == s.to_multiset(),
    decreases s.len(),
{
    if s.len() > 1 {
        let mid = (s.len() + 1) as int / 2;
        let left = s.take(mid);
        let right = s.skip(mid);
        lemma_mergesort_sorted_permutation(left, less);
        lemma_mergesort_sorted_permutation(right, less);
        lemma_merge_sorted(mergesort_spec(left, less), mergesort_spec(right, less), less);
        lemma_multiset_commutative(mergesort_spec(left, less), mergesort_spec(right, less));
        lemma_multiset_commutative(left, right);
        assert(left + right =~= s);
        assert(mergesort_spec(s, less).to_multiset() =~= s.to_multiset());
    }
}

/// An ownership chain of keyword records.
#[allow(non_camel_case_types)]
pub enum Keyword_List {
    /// The empty list.
    Nil,
    /// One keyword and the rest of the chain.
    Cons(Keyword, Box<Keyword_List>),
}

/// The keywords of a chain, in list order.
pub open spec fn kw_list_view(l: Keyword_List) -> Seq<Keyword>
    decreases l,
{
    match l {
        Keyword_List::Nil => Seq::empty(),
        Keyword_List::Cons(car, cdr) => seq![car] + kw_list_view(*cdr),
    }
}

impl View for Keyword_List {
    type V = Seq<Keyword>;

    /// The keywords, in list order.
    open spec fn view(&self) -> Seq<Keyword> {
        kw_list_view(*self)
    }
}

impl Keyword_List {
    /// A one-element list.
    pub fn new(car: Keyword) -> (r: Keyword_List)
        ensures
            r@ =~= seq![car],
    {
        let r = Keyword_List::Cons(car, Box::new(Keyword_List::Nil));
        proof {
            assert(kw_list_view(Keyword_List::Nil) =~= Seq::<Keyword>::empty());
            assert(r@ =~= seq![car]);
        }
        r
    }

    /// The first keyword.
    pub fn first(&self) -> (r: &Keyword)
        requires
            self@.len() > 0,
        ensures
            *r == self@[0],
    {
        match self {
            Keyword_List::Cons(car, _) => car,
            Keyword_List::Nil => unreached(),
        }
    }

    /// The chain after the first keyword.
    pub fn rest(&self) -> (r: &Keyword_List)
        requires
            self@.len() > 0,
        ensures
            r@ =~= self@.drop_first(),
    {
        match self {
            Keyword_List::Cons(_, cdr) => cdr,
            Keyword_List::Nil => unreached(),
        }
    }
}

/// An ownership chain of keyword extensions.
#[allow(non_camel_case_types)]
pub enum KeywordExt_List {
    /// The empty list.
    Nil,
    /// One extension and the rest of the chain.
    Cons(KeywordExt, Box<KeywordExt_List>),
}

/// The extensions of a chain, in list order.
pub open spec fn ext_list_view(l: KeywordExt_List) -> Seq<KeywordExt>
    decreases l,
{
    match l {
        KeywordExt_List::Nil => Seq::empty(),
        KeywordExt_List::Cons(car, cdr) => seq![car] + ext_list_view(*cdr),
    }
}

impl View for KeywordExt_List {
    type V = Seq<KeywordExt>;

    /// The extensions, in list order.
    open spec fn view(&self) -> Seq<KeywordExt> {
        ext_list_view(*self)
    }
}

impl KeywordExt_List {
    /// A one-element list.
    pub fn new(car: KeywordExt) -> (r: KeywordExt_List)
        ensures
            r@ =~= seq![car],
    {
        let r = KeywordExt_List::Cons(car, Box::new(KeywordExt_List::Nil));
        proof {
            assert(ext_list_view(KeywordExt_List::Nil) =~= Seq::<KeywordExt>::empty());
            assert(r@ =~= seq![car]);
        }
        r
    }

    /// The first extension.
    pub fn first(&self) -> (r: &KeywordExt)
        requires
            self@.len() > 0,
        ensures
            *r == self@[0],
    {
        match self {
            KeywordExt_List::Cons(car, _) => car,
            KeywordExt_List::Nil => unreached(),
        }
    }

    /// The chain after the first extension.
    pub fn rest(&self) -> (r: &KeywordExt_List)
        requires
            self@.len() > 0,
        ensures
            r@ =~= self@.drop_first(),
    {
        match self {
            KeywordExt_List::Cons(_, cdr) => cdr,
            KeywordExt_List::Nil => unreached(),
        }
    }
}

/// Stable two-way merge of two keyword chains: takes from `list2` only when
/// its head orders strictly before `list1`'s head.
pub fn merge<C: Less<Keyword>>(list1: Keyword_List, list2: Keyword_List, less: &C) -> (r:
    Keyword_List)
    ensures
        r@ == merge_spec(list1@, list2@, less_fn(*less)),
    decreases list1@.len() + list2@.len(),
{
    match list1 {
        Keyword_List::Nil => {
            proof {
                assert(list1@ =~= Seq::<Keyword>::empty());
            }
            list2
        },
        Keyword_List::Cons(k1, r1) => {
            proof {
                assert(list1@ =~= seq![k1] + r1@);
            }
            match list2 {
                Keyword_List::Nil => {
                    proof {
                        assert(list2@ =~= Seq::<Keyword>::empty());
                    }
                    let out = Keyword_List::Cons(k1, r1);
                    proof {
                        assert(out@ =~= list1@);
                    }
                    out
                },
                Keyword_List::Cons(k2, r2) => {
                    proof {
                        assert(list2@ =~= seq![k2] + r2@);
                        assert(list1@[0] == k1 && list2@[0] == k2);
                        assert(list1@.drop_first() =~= r1@);
                        assert(list2@.drop_first() =~= r2@);
                    }
                    if less.less(&k2, &k1) {
                        let arg = Keyword_List::Cons(k1, r1);
                        proof {
                            assert(arg@ =~= list1@);
                        }
                        let rest = merge(arg, *r2, less);
                        let out = Keyword_List::Cons(k2, Box::new(rest));
                        proof {
                            assert(out@ =~= seq![k2] + rest@);
                            assert(out@ =~= merge_spec(list1@, list2@, less_fn(*less)));
                        }
                        out
                    } else {
                        let arg = Keyword_List::Cons(k2, r2);
                        proof {
                            assert(arg@ =~= list2@);
                        }
                        let rest = merge(*r1, arg, less);
                        let out = Keyword_List::Cons(k1, Box::new(rest));
                        proof {
                            assert(out@ =~= seq![k1] + rest@);
                            assert(out@ =~= merge_spec(list1@, list2@, less_fn(*less)));
                        }
                        out
                    }
                },
            }
        },
    }
}

/// List length.
fn list_len(list: &Keyword_List) -> (r: usize)
    requires
        list@.len() <= usize::MAX,
    ensures
        r == list@.len(),
    decreases list@.len(),
{
    match list {
        Keyword_List::Nil => 0,
        Keyword_List::Cons(_, cdr) => 1 + list_len(cdr),
    }
}

/// Detach the first `n` keywords from the rest of the chain.
fn split_at(list: Keyword_List, n: usize) -> (r: (Keyword_List, Keyword_List))
    requires
        n <= list@.len(),
    ensures
        r.0@ == list@.take(n as int),
        r.1@ == list@.skip(n as int),
    decreases n,
{
    if n == 0 {
        let r = (Keyword_List::Nil, list);
        proof {
            assert(r.0@ =~= list@.take(0));
            assert(r.1@ =~= list@.skip(0));
        }
        r
    } else {
        match list {
            Keyword_List::Cons(car, cdr) => {
                let (left, right) = split_at(*cdr, n - 1);
                let r = (Keyword_List::Cons(car, Box::new(left)), right);
                proof {
                    assert(r.0@ =~= (seq![car] + cdr@).take(n as int));
                    assert(r.1@ =~= (seq![car] + cdr@).skip(n as int));
                }
                r
            },
            Keyword_List::Nil => unreached(),
        }
    }
}

/// Merge sort over a keyword chain: split in the middle, sort both halves,
/// merge them stably.
pub fn mergesort_list<C: Less<Keyword>>(list: Keyword_List, less: &C) -> (r: Keyword_List)
    requires
        list@.len() <= usize::MAX,
    ensures
        r@ == mergesort_spec(list@, less_fn(*less)),
    decreases list@.len(),
{
    let n: usize = list_len(&list);
    if n <= 1 {
        return list;
    }
    let mid: usize = (n / 2) + (n % 2);
    proof {
        assert(mid as int == (list@.len() + 1) as int / 2);
        assert(list@.take(mid as int).len() < list@.len());
        assert(list@.skip(mid as int).len() < list@.len());
    }
    let (left, right) = split_at(list, mid);
    let left_sorted = mergesort_list(left, less);
    let right_sorted = mergesort_list(right, less);
    merge(left_sorted, right_sorted, less)
}

/// Stable two-way merge of two extension chains.
pub fn merge_ext<C: Less<KeywordExt>>(
    list1: KeywordExt_List,
    list2: KeywordExt_List,
    less: &C,
) -> (r: KeywordExt_List)
    ensures
        r@ == merge_spec(list1@, list2@, less_fn(*less)),
    decreases list1@.len() + list2@.len(),
{
    match list1 {
        KeywordExt_List::Nil => {
            proof {
                assert(list1@ =~= Seq::<KeywordExt>::empty());
            }
            list2
        },
        KeywordExt_List::Cons(k1, r1) => {
            proof {
                assert(list1@ =~= seq![k1] + r1@);
            }
            match list2 {
                KeywordExt_List::Nil => {
                    proof {
                        assert(list2@ =~= Seq::<KeywordExt>::empty());
                    }
                    let out = KeywordExt_List::Cons(k1, r1);
                    proof {
                        assert(out@ =~= list1@);
                    }
                    out
                },
                KeywordExt_List::Cons(k2, r2) => {
                    proof {
                        assert(list2@ =~= seq![k2] + r2@);
                        assert(list1@[0] == k1 && list2@[0] == k2);
                        assert(list1@.drop_first() =~= r1@);
                        assert(list2@.drop_first() =~= r2@);
                    }
                    if less.less(&k2, &k1) {
                        let arg = KeywordExt_List::Cons(k1, r1);
                        proof {
                            assert(arg@ =~= list1@);
                        }
                        let rest = merge_ext(arg, *r2, less);
                        let out = KeywordExt_List::Cons(k2, Box::new(rest));
                        proof {
                            assert(out@ =~= seq![k2] + rest@);
                            assert(out@ =~= merge_spec(list1@, list2@, less_fn(*less)));
                        }
                        out
                    } else {
                        let arg = KeywordExt_List::Cons(k2, r2);
                        proof {
                            assert(arg@ =~= list2@);
                        }
                        let rest = merge_ext(*r1, arg, less);
                        let out = KeywordExt_List::Cons(k1, Box::new(rest));
                        proof {
                            assert(out@ =~= seq![k1] + rest@);
                            assert(out@ =~= merge_spec(list1@, list2@, less_fn(*less)));
                        }
                        out
                    }
                },
            }
        },
    }
}

/// Extension-chain length.
fn extlist_len(list: &KeywordExt_List) -> (r: usize)
    requires
        list@.len() <= usize::MAX,
    ensures
        r == list@.len(),
    decreases list@.len(),
{
    match list {
        KeywordExt_List::Nil => 0,
        KeywordExt_List::Cons(_, cdr) => 1 + extlist_len(cdr),
    }
}

/// Detach the first `n` extensions from the rest of the chain.
fn split_at_ext(list: KeywordExt_List, n: usize) -> (r: (KeywordExt_List, KeywordExt_List))
    requires
        n <= list@.len(),
    ensures
        r.0@ == list@.take(n as int),
        r.1@ == list@.skip(n as int),
    decreases n,
{
    if n == 0 {
        let r = (KeywordExt_List::Nil, list);
        proof {
            assert(r.0@ =~= list@.take(0));
            assert(r.1@ =~= list@.skip(0));
        }
        r
    } else {
        match list {
            KeywordExt_List::Cons(car, cdr) => {
                let (left, right) = split_at_ext(*cdr, n - 1);
                let r = (KeywordExt_List::Cons(car, Box::new(left)), right);
                proof {
                    assert(r.0@ =~= (seq![car] + cdr@).take(n as int));
                    assert(r.1@ =~= (seq![car] + cdr@).skip(n as int));
                }
                r
            },
            KeywordExt_List::Nil => unreached(),
        }
    }
}

/// Merge sort over an extension chain.
pub fn mergesort_extlist<C: Less<KeywordExt>>(list: KeywordExt_List, less: &C) -> (r:
    KeywordExt_List)
    requires
        list@.len() <= usize::MAX,
    ensures
        r@ == mergesort_spec(list@, less_fn(*less)),
    decreases list@.len(),
{
    let n: usize = extlist_len(&list);
    if n <= 1 {
        return list;
    }
    let mid: usize = (n / 2) + (n % 2);
    proof {
        assert(mid as int == (list@.len() + 1) as int / 2);
        assert(list@.take(mid as int).len() < list@.len());
        assert(list@.skip(mid as int).len() < list@.len());
    }
    let (left, right) = split_at_ext(list, mid);
    let left_sorted = mergesort_extlist(left, less);
    let right_sorted = mergesort_extlist(right, less);
    merge_ext(left_sorted, right_sorted, less)
}

/// Byte-for-byte copy of a byte string.
#[verifier::loop_isolation(false)]
fn copy_bytes(src: &Vec<u8>) -> (r: Vec<u8>)
    ensures
        r@ == src@,
{
    let mut out: Vec<u8> = Vec::new();
    let mut i: usize = 0;
    while i < src.len()
        invariant
            i <= src@.len(),
            out@ == src@.take(i as int),
        decreases src@.len() - i,
    {
        out.push(src[i]);
        proof {
            assert(out@ =~= src@.take(i as int + 1));
        }
        i = i + 1;
    }
    proof {
        assert(src@.take(src@.len() as int) =~= src@);
    }
    out
}

/// Copy of one keyword record.
fn copy_keyword(k: &Keyword) -> (r: Keyword)
    ensures
        r.allchars@ == k.allchars@,
        r.rest@ == k.rest@,
        r.lineno == k.lineno,
{
    Keyword { allchars: copy_bytes(&k.allchars), rest: copy_bytes(&k.rest), lineno: k.lineno }
}

/// The keyword payloads carried by a copied chain agree field by field with
/// the originals.
pub open spec fn keywords_agree(a: Seq<Keyword>, b: Seq<Keyword>) -> bool {
    a.len() == b.len() && forall|i: int|
        0 <= i < a.len() ==> (#[trigger] a[i]).allchars@ == b[i].allchars@ && a[i].rest@
            == b[i].rest@ && a[i].lineno == b[i].lineno
}

/// Duplicate a keyword chain: fresh nodes, equal keyword payloads.
pub fn copy_list(list: &Keyword_List) -> (r: Keyword_List)
    ensures
        keywords_agree(r@, list@),
    decreases list@.len(),
{
    match list {
        Keyword_List::Nil => Keyword_List::Nil,
        Keyword_List::Cons(car, cdr) => {
            let rest = copy_list(cdr);
            let out = Keyword_List::Cons(copy_keyword(car), Box::new(rest));
            proof {
                assert(out@.drop_first() =~= rest@);
                assert(list@.drop_first() =~= cdr@);
                assert forall|i: int| 0 <= i < out@.len() implies (#[trigger] out@[i]).allchars@
                    == list@[i].allchars@ && out@[i].rest@ == list@[i].rest@ && out@[i].lineno
                    == list@[i].lineno by {
                    if i > 0 {
                        assert(out@[i] == rest@[i - 1] && list@[i] == cdr@[i - 1]);
                    }
                }
            }
            out
        },
    }
}

/// The extension payloads carried by a copied chain agree field by field
/// with the originals.
pub open spec fn exts_agree(a: Seq<KeywordExt>, b: Seq<KeywordExt>) -> bool {
    a.len() == b.len() && forall|i: int|
        0 <= i < a.len() ==> (#[trigger] a[i]).keyword.allchars@ == b[i].keyword.allchars@
            && a[i].keyword.rest@ == b[i].keyword.rest@ && a[i].keyword.lineno
            == b[i].keyword.lineno && a[i].selchars@ == b[i].selchars@ && a[i].duplicate_link
            == b[i].duplicate_link
}

/// Copy of one selected character set.
#[verifier::loop_isolation(false)]
fn copy_selchars(src: &Vec<u32>) -> (r: Vec<u32>)
    ensures
        r@ == src@,
{
    let mut out: Vec<u32> = Vec::new();
    let mut i: usize = 0;
    while i < src.len()
        invariant
            i <= src@.len(),
            out@ == src@.take(i as int),
        decreases src@.len() - i,
    {
        out.push(src[i]);
        proof {
            assert(out@ =~= src@.take(i as int + 1));
        }
        i = i + 1;
    }
    proof {
        assert(src@.take(src@.len() as int) =~= src@);
    }
    out
}

/// Duplicate an extension chain: fresh nodes, equal payloads, selected
/// character sets and duplicate links included.
pub fn copy_extlist(list: &KeywordExt_List) -> (r: KeywordExt_List)
    ensures
        exts_agree(r@, list@),
    decreases list@.len(),
{
    match list {
        KeywordExt_List::Nil => KeywordExt_List::Nil,
        KeywordExt_List::Cons(car, cdr) => {
            let rest = copy_extlist(cdr);
            let copied = KeywordExt {
                keyword: copy_keyword(&car.keyword),
                selchars: copy_selchars(&car.selchars),
                duplicate_link: car.duplicate_link,
            };
            let out = KeywordExt_List::Cons(copied, Box::new(rest));
            proof {
                assert(out@.drop_first() =~= rest@);
                assert(list@.drop_first() =~= cdr@);
                assert forall|i: int| 0 <= i < out@.len() implies (#[trigger] out@[i]).keyword.allchars@
                    == list@[i].keyword.allchars@ && out@[i].keyword.rest@
                    == list@[i].keyword.rest@ && out@[i].keyword.lineno == list@[i].keyword.lineno
                    && out@[i].selchars@ == list@[i].selchars@ && out@[i].duplicate_link
                    == list@[i].duplicate_link by {
                    if i > 0 {
                        assert(out@[i] == rest@[i - 1] && list@[i] == cdr@[i - 1]);
                    }
                }
            }
            out
        },
    }
}

/// Release a keyword chain, node by node; with owned nodes nothing else is
/// needed.
pub fn delete_list(list: Keyword_List)
    decreases list@.len(),
{
    match list {
        Keyword_List::Nil => (),
        Keyword_List::Cons(_, cdr) => delete_list(*cdr),
    }
}

/// Orders records by their source line number; an example of the orderings
/// (by occurrence, by frequency) that the search layer supplies.
pub struct LessByLineno;

impl Less<Keyword> for LessByLineno {
    /// Strictly smaller line number.
    open spec fn less_spec(&self, a: &Keyword, b: &Keyword) -> bool {
        a.lineno < b.lineno
    }

    fn less(&self, a: &Keyword, b: &Keyword) -> (r: bool) {
        a.lineno < b.lineno
    }
}

impl Less<KeywordExt> for LessByLineno {
    /// Strictly smaller line number of the underlying record.
    open spec fn less_spec(&self, a: &KeywordExt, b: &KeywordExt) -> bool {
        a.keyword.lineno < b.keyword.lineno
    }

    fn less(&self, a: &KeywordExt, b: &KeywordExt) -> (r: bool) {
        a.keyword.lineno < b.keyword.lineno
    }
}

} // verus!
