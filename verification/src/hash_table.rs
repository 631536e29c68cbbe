//! Open-addressing hash table for detecting duplicate keyword signatures.
//!
//! The table is sized to a power of two at least `SIZE_FACTOR` times the
//! number of keywords and probes with double hashing: the increment is
//! always odd, so the probe sequence visits every slot of the table before
//! repeating.  Slots hold indices into a caller-owned arena of keyword
//! extensions; an `insert` either stores the new index into the first free
//! slot of its probe path or returns the index of an extension whose
//! signature is identical.

use vstd::prelude::*;

verus! {

use crate::keyword::KeywordExt;
use crate::positions::{dec_digits, push_dec};
use vstd::arithmetic::power2::{pow2, lemma_pow2_unfold, lemma_pow2_strictly_increases, lemma_pow2_pos};

/// Oversubscription factor: the table gets at least this many slots per
/// keyword, so probe chains stay short.
pub const SIZE_FACTOR: usize = 10;

/// The part of a keyword extension that makes up its signature: the selected
/// characters, and the keyword length (compared only when lengths are not
/// ignored).
pub ghost struct Sig {
    /// The selected character set.
    pub selchars: Seq<u32>,
    /// The keyword's own length.
    pub kwlen: nat,
}

/// The signature of one keyword extension.
pub open spec fn sig_of(k: KeywordExt) -> Sig {
    Sig { selchars: k.selchars@, kwlen: k.keyword.allchars@.len() }
}

/// The signatures of a whole arena of keyword extensions.
pub open spec fn sigs_of(arena: Seq<KeywordExt>) -> Seq<Sig> {
    arena.map_values(|k: KeywordExt| sig_of(k))
}

/// Signature equality: same selected characters in the same order, and,
/// unless lengths are ignored, the same keyword length.
pub open spec fn sig_eq(a: Sig, b: Sig, ignore_length: bool) -> bool {
    a.selchars == b.selchars && (ignore_length || a.kwlen == b.kwlen)
}

/// One step of the hash: shift in a selected character, folding the top
/// nibble back down when it fills up.
pub open spec fn hash_step(h: u32, c: u32) -> u32 {
    let h1 = vstd::wrapping::u32_specs::wrapping_add(h << 4, c);
    let g = h1 & 0xf000_0000;
    if g != 0 {
        (h1 ^ (g >> 24)) ^ g
    } else {
        h1
    }
}

/// Weighted (polynomial) hash over the selected characters.  Internal only:
/// no generated artifact depends on its exact constants.
pub open spec fn hash_spec(s: Seq<u32>) -> u32
    decreases s.len(),
{
    if s.len() == 0 {
        0u32
    } else {
        hash_step(hash_spec(s.drop_last()), s.last())
    }
}

/// Weighted hash over a selected character set.
#[verifier::loop_isolation(false)]
pub fn hashpjw(x: &Vec<u32>) -> (r: u32)
    ensures
        r == hash_spec(x@),
{
    let mut h: u32 = 0;
    let mut i: usize = 0;
    while i < x.len()
        invariant
            i <= x@.len(),
            h == hash_spec(x@.take(i as int)),
        decreases x@.len() - i,
    {
        let c: u32 = x[i];
        proof {
            assert(x@.take(i as int + 1).drop_last() =~= x@.take(i as int));
            assert(x@.take(i as int + 1).last() == c);
        }
        let h1: u32 = (h << 4u32).wrapping_add(c);
        let g: u32 = h1 & 0xf000_0000;
        if g != 0 {
            h = (h1 ^ (g >> 24u32)) ^ g;
        } else {
            h = h1;
        }
        i = i + 1;
    }
    proof {
        assert(x@.take(x@.len() as int) =~= x@);
    }
    h
}

/// The double-hashing increment for a signature: derived from the top hash
/// bits and (unless ignored) the keyword length, forced odd by the final
/// shift-and-or so the probe sequence is a full cycle.
pub open spec fn inc_of(sig: Sig, log_size: nat, ignore_length: bool) -> u32 {
    let h = hash_spec(sig.selchars);
    let x: u32 = if ignore_length {
        0u32
    } else {
        sig.kwlen as u32
    };
    (((h >> (log_size as u32)) ^ x) << 1) | 1
}

/// Slot probed at step `t` for start `h` and increment `inc`.
pub open spec fn probe_at(h: int, inc: int, size: int, t: int) -> int {
    (h + t * inc) % size
}

/// An open-addressing signature table.  Slots hold indices into the arena of
/// keyword extensions the caller passes to `insert`; the table never owns
/// the extensions and is rebuilt fresh for each trial.
pub struct Hash_Table {
    /// The slots; a power of two of them.
    pub table: Vec<Option<usize>>,
    /// Base-2 logarithm of the slot count.
    pub log_size: usize,
    /// When set, keyword lengths take no part in signatures.
    pub ignore_length: bool,
    /// Number of occupied slots passed over while probing.
    pub collisions: usize,
}

/// Number of occupied slots.
pub open spec fn count_some(t: Seq<Option<usize>>) -> int
    decreases t.len(),
{
    if t.len() == 0 {
        0
    } else {
        count_some(t.drop_last()) + (if t.last() is Some {
            1int
        } else {
            0int
        })
    }
}

impl Hash_Table {
    /// Slot count.
    pub open spec fn size(&self) -> int {
        self.table@.len() as int
    }

    /// Probe slot at step `t` of `sig`'s probe sequence.
    pub open spec fn probe(&self, sig: Sig, t: int) -> int {
        probe_at(
            hash_spec(sig.selchars) as int,
            inc_of(sig, self.log_size as nat, self.ignore_length) as int,
            self.size(),
            t,
        )
    }

    /// The first `k` slots of `sig`'s probe sequence are occupied.
    pub open spec fn path_occupied(&self, sig: Sig, k: int) -> bool {
        forall|m: int| 0 <= m < k ==> self.table@[self.probe(sig, m)] is Some
    }

    /// An occupied slot q holds an arena index reachable along its own probe
    /// sequence, with every earlier slot of that sequence occupied.
    pub open spec fn stored_ok(&self, sigs: Seq<Sig>, q: int) -> bool {
        self.table@[q] matches Some(i) ==> i < sigs.len() && exists|k: int|
            0 <= k < self.size() && #[trigger] self.probe(sigs[i as int], k) == q
                && self.path_occupied(sigs[i as int], k)
    }

    /// Table invariant relative to the signatures of the caller's arena: a
    /// power-of-two slot count, every occupied slot reachable by probing,
    /// and no arena index stored twice.
    pub open spec fn inv(&self, sigs: Seq<Sig>) -> bool {
        &&& self.table@.len() == pow2(self.log_size as nat)
        &&& self.log_size < 32
        &&& forall|q: int| 0 <= q < self.size() ==> self.stored_ok(sigs, q)
        &&& forall|q1: int, q2: int|
            0 <= q1 < q2 < self.size() && self.table@[q1] is Some && self.table@[q2] is Some
                ==> self.table@[q1] != self.table@[q2]
    }

    /// Some occupied slot holds a signature equal to `sigs[item]`.
    pub open spec fn contains_equal(&self, sigs: Seq<Sig>, item: int) -> bool {
        exists|q: int|
            0 <= q < self.size() && ((#[trigger] self.table@[q]) matches Some(j) && sig_eq(
                sigs[j as int],
                sigs[item],
                self.ignore_length,
            ))
    }

    /// Number of occupied slots.
    pub open spec fn occupied(&self) -> int {
        count_some(self.table@)
    }

    /// A fresh table for `size` keywords: slot count is the smallest power
    /// of two at least `SIZE_FACTOR * size`, all slots empty, collision
    /// counter zeroed.
    #[verifier::loop_isolation(false)]
    pub fn new(size: usize, ignore_length: bool) -> (r: Hash_Table)
        requires
            size <= 0x0400_0000,
        ensures
            r.inv(Seq::<Sig>::empty()),
            forall|sigs: Seq<Sig>| r.inv(sigs),
            r.table@.len() >= SIZE_FACTOR * size,
            size >= 1 ==> r.table@.len() < 2 * SIZE_FACTOR * size,
            forall|q: int| 0 <= q < r.size() ==> r.table@[q] is None,
            r.occupied() == 0,
            r.collisions == 0,
            r.ignore_length == ignore_length,
    {
        let target: usize = size * SIZE_FACTOR;
        let mut log_size: usize = 0;
        let mut sz: usize = 1;
        proof {
            vstd::arithmetic::power2::lemma2_to64();
        }
        while sz < target
            invariant
                sz == pow2(log_size as nat),
                log_size <= 30,
                log_size == 0 || pow2((log_size - 1) as nat) < target,
                target <= 0x2800_0000,
            decreases 2 * target - sz,
        {
            proof {
                vstd::arithmetic::power2::lemma2_to64();
                lemma_pow2_pos(log_size as nat);
                if log_size >= 30 {
                    if log_size > 30 {
                        lemma_pow2_strictly_increases(30, log_size as nat);
                    }
                    assert(sz >= 0x4000_0000);
                }
                lemma_pow2_unfold((log_size + 1) as nat);
            }
            sz = sz * 2;
            log_size = log_size + 1;
        }
        proof {
            vstd::arithmetic::power2::lemma2_to64();
            if log_size > 0 {
                lemma_pow2_unfold(log_size as nat);
            }
            if size >= 1 {
                assert(target >= SIZE_FACTOR) by (nonlinear_arith)
                    requires
                        target == size * SIZE_FACTOR,
                        size >= 1,
                ;
                assert(log_size > 0);
                assert(sz < 2 * target);
                assert(2 * target == 2 * SIZE_FACTOR * size) by (nonlinear_arith)
                    requires
                        target == size * SIZE_FACTOR,
                ;
            }
        }
        let table: Vec<Option<usize>> = vec![None; sz];
        let r = Hash_Table { table, log_size, ignore_length, collisions: 0 };
        proof {
            lemma_count_some_all_none(r.table@);
        }
        r
    }

    /// The invariant and the probe sequences read only the slots, the size
    /// fields and the length flag, never the collision counter.
    proof fn lemma_inv_same_slots(a: Hash_Table, b: Hash_Table, sigs: Seq<Sig>)
        requires
            a.inv(sigs),
            b.table@ == a.table@,
            b.log_size == a.log_size,
            b.ignore_length == a.ignore_length,
        ensures
            b.inv(sigs),
            forall|sig: Sig, k: int| #[trigger] b.probe(sig, k) == a.probe(sig, k),
    {
        assert forall|sig: Sig, k: int| #[trigger] b.probe(sig, k) == a.probe(sig, k) by {
            assert(b.size() == a.size());
        }
        assert forall|q: int| 0 <= q < b.size() implies b.stored_ok(sigs, q) by {
            if b.table@[q] is Some {
                let i = b.table@[q].unwrap();
                assert(a.stored_ok(sigs, q));
                let k = choose|k: int|
                    0 <= k < a.size() && #[trigger] a.probe(sigs[i as int], k) == q
                        && a.path_occupied(sigs[i as int], k);
                assert(b.probe(sigs[i as int], k) == q);
                assert(b.path_occupied(sigs[i as int], k)) by {
                    assert forall|m: int| 0 <= m < k implies b.table@[b.probe(
                        sigs[i as int],
                        m,
                    )] is Some by {
                        assert(a.table@[a.probe(sigs[i as int], m)] is Some);
                    }
                }
                assert(0 <= k < b.size() && b.probe(sigs[i as int], k) == q && b.path_occupied(
                    sigs[i as int],
                    k,
                ));
            }
        }
    }

    /// Probe sequences depend only on the signature, so signature-equal
    /// extensions share one probe sequence.
    proof fn lemma_sig_eq_same_probes(&self, a: Sig, b: Sig)
        requires
            sig_eq(a, b, self.ignore_length),
        ensures
            forall|m: int| #[trigger] self.probe(a, m) == self.probe(b, m),
    {
        assert(hash_spec(a.selchars) == hash_spec(b.selchars));
        assert(inc_of(a, self.log_size as nat, self.ignore_length) == inc_of(
            b,
            self.log_size as nat,
            self.ignore_length,
        ));
    }

    /// Walk `item`'s probe sequence.  Returns `Some(j)` — the arena index of
    /// an extension already stored with an identical signature — exactly
    /// when one exists, leaving the slots unchanged; otherwise stores `item`
    /// in the first free slot of the sequence and returns `None`.  Each
    /// occupied slot passed over counts as a collision.
    #[verifier::loop_isolation(false)]
    pub fn insert(&mut self, arena: &Vec<KeywordExt>, item: usize) -> (r: Option<usize>)
        requires
            old(self).inv(sigs_of(arena@)),
            item < arena@.len(),
            arena@[item as int].keyword.allchars@.len() <= u32::MAX,
            old(self).occupied() < old(self).size() || old(self).contains_equal(
                sigs_of(arena@),
                item as int,
            ),
            old(self).collisions + old(self).table@.len() <= usize::MAX,
        ensures
            final(self).log_size == old(self).log_size,
            final(self).ignore_length == old(self).ignore_length,
            final(self).table@.len() == old(self).table@.len(),
            final(self).inv(sigs_of(arena@)),
            final(self).collisions <= old(self).collisions + old(self).table@.len(),
            r matches Some(j) ==> final(self).table@ == old(self).table@ && j < arena@.len() && (
            exists|q: int|
                0 <= q < old(self).size() && old(self).table@[q] == Some(j)) && sig_eq(
                sigs_of(arena@)[j as int],
                sigs_of(arena@)[item as int],
                old(self).ignore_length,
            ),
            r is None ==> exists|q: int|
                0 <= q < old(self).size() && old(self).table@[q] is None && final(self).table@
                    == old(self).table@.update(q, Some(item)),
            (r is None) <==> !old(self).contains_equal(sigs_of(arena@), item as int),
            final(self).occupied() == old(self).occupied() + (if r is None {
                1int
            } else {
                0int
            }),
    {
        let ghost sigs = sigs_of(arena@);
        let ghost isig = sigs[item as int];
        let hash_val: u32 = hashpjw(&arena[item].selchars);
        let kwlen32: u32 = arena[item].keyword.allchars.len() as u32;
        let x: u32 = if self.ignore_length {
            0
        } else {
            kwlen32
        };
        let inc32: u32 = (((hash_val >> (self.log_size as u32)) ^ x) << 1u32) | 1;
        proof {
            assert(isig == sig_of(arena@[item as int]));
            assert(hash_val == hash_spec(isig.selchars));
            assert(inc32 == inc_of(isig, self.log_size as nat, self.ignore_length));
            lemma_shl1_or1_odd((hash_val >> (self.log_size as u32)) ^ x);
            lemma_pow2_pos(self.log_size as nat);
        }
        let size: usize = self.table.len();
        proof {
            vstd::arithmetic::power2::lemma2_to64();
            if self.log_size < 31 {
                lemma_pow2_strictly_increases(self.log_size as nat, 31);
            }
            assert(size <= 0x8000_0000);
        }
        let mut probe: usize = (hash_val as usize) % size;
        let inc: usize = inc32 as usize;
        let ghost h = hash_val as int;
        let ghost ginc = inc32 as int;
        let ghost mut t: int = 0;
        proof {
            assert(probe == probe_at(h, ginc, size as int, 0));
        }
        while self.table[probe].is_some()
            invariant
                self.inv(sigs),
                self.table@ == old(self).table@,
                self.log_size == old(self).log_size,
                self.ignore_length == old(self).ignore_length,
                size == self.table@.len(),
                0 <= t <= size,
                size <= 0x8000_0000,
                probe < size,
                probe as int == self.probe(isig, t),
                forall|m: int| 0 <= m < t ==> self.table@[#[trigger] self.probe(isig, m)] is Some,
                forall|m: int|
                    0 <= m < t ==> !sig_eq(
                        sigs[self.table@[#[trigger] self.probe(isig, m)].unwrap() as int],
                        isig,
                        self.ignore_length,
                    ),
                old(self).collisions <= self.collisions <= old(self).collisions + t,
            decreases size - t,
        {
            let j: usize = self.table[probe].unwrap();
            proof {
                assert(self.stored_ok(sigs, probe as int));
                assert(j < sigs.len());
            }
            if self.equal(&arena[j], &arena[item]) {
                proof {
                    assert(sig_of(arena@[j as int]) == sigs[j as int]);
                    assert(self.contains_equal(sigs, item as int)) by {
                        assert(0 <= probe < self.size() && ((self.table@[probe as int]) matches
                        Some(j2) && sig_eq(sigs[j2 as int], sigs[item as int], self.ignore_length)));
                    }
                }
                return Some(j);
            }
            proof {
                assert(sig_of(arena@[j as int]) == sigs[j as int]);
                assert(!sig_eq(sigs[j as int], isig, self.ignore_length));
                assert(t < size) by {
                    if t == size {
                        if old(self).occupied() < old(self).size() {
                            lemma_walk_hits_empty(h, ginc, self.log_size as nat, self.table@);
                            let m = choose|m: int|
                                0 <= m < size && self.table@[probe_at(
                                    h,
                                    ginc,
                                    size as int,
                                    m,
                                )] is None;
                            assert(self.table@[self.probe(isig, m)] is Some);
                        } else {
                            let q = choose|q: int|
                                0 <= q < self.size() && ((#[trigger] self.table@[q]) matches Some(
                                    j2,
                                ) && sig_eq(sigs[j2 as int], sigs[item as int], self.ignore_length));
                            let j2 = self.table@[q].unwrap();
                            assert(self.stored_ok(sigs, q));
                            let k = choose|k: int|
                                0 <= k < self.size() && #[trigger] self.probe(sigs[j2 as int], k)
                                    == q && self.path_occupied(sigs[j2 as int], k);
                            self.lemma_sig_eq_same_probes(sigs[j2 as int], isig);
                            assert(self.probe(isig, k) == q);
                            assert(!sig_eq(
                                sigs[self.table@[self.probe(isig, k)].unwrap() as int],
                                isig,
                                self.ignore_length,
                            ));
                            assert(sig_eq(sigs[j2 as int], isig, self.ignore_length));
                        }
                    }
                }
            }
            let ghost before = *self;
            self.collisions = self.collisions + 1;
            proof {
                Self::lemma_inv_same_slots(before, *self, sigs);
            }
            let ghost old_probe = probe as int;
            probe = (((probe as u64) + (inc as u64)) % (size as u64)) as usize;
            proof {
                t = t + 1;
                assert(probe as int == (old_probe + ginc) % (size as int));
                vstd::arithmetic::div_mod::lemma_add_mod_noop_right(
                    ginc,
                    h + (t - 1) * ginc,
                    size as int,
                );
                assert(h + (t - 1) * ginc + ginc == h + t * ginc) by (nonlinear_arith);
                vstd::arithmetic::div_mod::lemma_mod_division_less_than_divisor(
                    h + t * ginc,
                    size as int,
                );
            }
        }
        proof {
            assert(self.table@[probe as int] is None);
            assert(t < size) by {
                if t == size {
                    vstd::arithmetic::div_mod::lemma_mod_multiples_vanish(
                        ginc,
                        h,
                        size as int,
                    );
                    assert(h + (size as int) * ginc == (size as int) * ginc + h);
                    assert(self.probe(isig, t) == self.probe(isig, 0));
                    assert(self.table@[self.probe(isig, 0)] is Some);
                }
            }
            assert(!self.contains_equal(sigs, item as int)) by {
                if self.contains_equal(sigs, item as int) {
                    let q = choose|q: int|
                        0 <= q < self.size() && ((#[trigger] self.table@[q]) matches Some(j2)
                            && sig_eq(sigs[j2 as int], sigs[item as int], self.ignore_length));
                    let j2 = self.table@[q].unwrap();
                    assert(self.stored_ok(sigs, q));
                    let k = choose|k: int|
                        0 <= k < self.size() && #[trigger] self.probe(sigs[j2 as int], k) == q
                            && self.path_occupied(sigs[j2 as int], k);
                    self.lemma_sig_eq_same_probes(sigs[j2 as int], isig);
                    assert(self.probe(isig, k) == q);
                    if k < t {
                        assert(!sig_eq(
                            sigs[self.table@[self.probe(isig, k)].unwrap() as int],
                            isig,
                            self.ignore_length,
                        ));
                    } else if k == t {
                        assert(self.table@[q] is None);
                    } else {
                        assert(self.table@[self.probe(sigs[j2 as int], t)] is Some);
                        assert(self.table@[self.probe(isig, t)] is Some);
                    }
                    assert(false);
                }
            }
        }
        let ghost pre = *self;
        self.table[probe] = Some(item);
        proof {
            let q0 = probe as int;
            assert(self.table@ =~= pre.table@.update(q0, Some(item)));
            lemma_count_some_update(pre.table@, q0, item);
            assert forall|q: int| 0 <= q < self.size() implies self.stored_ok(sigs, q) by {
                if self.table@[q] is Some {
                    if q == q0 {
                        assert(self.probe(isig, t) == q0);
                        assert(self.path_occupied(isig, t)) by {
                            assert forall|m: int| 0 <= m < t implies self.table@[self.probe(
                                isig,
                                m,
                            )] is Some by {
                                assert(pre.table@[pre.probe(isig, m)] is Some);
                            }
                        }
                        assert(0 <= t < self.size() && self.probe(sigs[item as int], t) == q
                            && self.path_occupied(sigs[item as int], t));
                    } else {
                        assert(pre.table@[q] is Some);
                        assert(pre.stored_ok(sigs, q));
                        let i2 = pre.table@[q].unwrap();
                        let k = choose|k: int|
                            0 <= k < pre.size() && #[trigger] pre.probe(sigs[i2 as int], k) == q
                                && pre.path_occupied(sigs[i2 as int], k);
                        assert(self.path_occupied(sigs[i2 as int], k)) by {
                            assert forall|m: int| 0 <= m < k implies self.table@[self.probe(
                                sigs[i2 as int],
                                m,
                            )] is Some by {
                                assert(pre.table@[pre.probe(sigs[i2 as int], m)] is Some);
                            }
                        }
                        assert(0 <= k < self.size() && self.probe(sigs[i2 as int], k) == q
                            && self.path_occupied(sigs[i2 as int], k));
                    }
                }
            }
            assert forall|q1: int, q2: int|
                0 <= q1 < q2 < self.size() && self.table@[q1] is Some && self.table@[q2] is Some
                    implies self.table@[q1] != self.table@[q2] by {
                if q1 != q0 && q2 != q0 {
                    assert(pre.table@[q1] is Some && pre.table@[q2] is Some);
                } else {
                    let other = if q1 == q0 {
                        q2
                    } else {
                        q1
                    };
                    if self.table@[other] == Some(item) {
                        assert(pre.table@[other] == Some(item));
                        assert(pre.contains_equal(sigs, item as int)) by {
                            assert(0 <= other < pre.size() && ((pre.table@[other]) matches Some(j2)
                                && sig_eq(
                                sigs[j2 as int],
                                sigs[item as int],
                                pre.ignore_length,
                            )));
                        }
                    }
                }
            }
            assert(0 <= q0 < old(self).size() && old(self).table@[q0] is None && self.table@
                == old(self).table@.update(q0, Some(item)));
        }
        None
    }

    /// Signature equality test: equal selected character sets, and equal
    /// keyword lengths unless lengths are ignored.
    #[verifier::loop_isolation(false)]
    pub fn equal(&self, item1: &KeywordExt, item2: &KeywordExt) -> (r: bool)
        ensures
            r == sig_eq(sig_of(*item1), sig_of(*item2), self.ignore_length),
    {
        if item1.selchars.len() != item2.selchars.len() {
            return false;
        }
        let n: usize = item1.selchars.len();
        let mut i: usize = 0;
        while i < n
            invariant
                i <= n,
                forall|m: int| 0 <= m < i ==> item1.selchars@[m] == item2.selchars@[m],
            decreases n - i,
        {
            if item1.selchars[i] != item2.selchars[i] {
                return false;
            }
            i = i + 1;
        }
        proof {
            assert(item1.selchars@ =~= item2.selchars@);
        }
        if !self.ignore_length && item1.keyword.allchars.len() != item2.keyword.allchars.len() {
            return false;
        }
        true
    }
}

impl Hash_Table {
    /// Diagnostic listing of the occupied slots, one row each: slot number,
    /// the signature's characters (`?` for unprintable ones) right-aligned
    /// to the widest signature, and the keyword text.  Not part of the
    /// programmatic contract; the caller decides where to write it.
    #[verifier::loop_isolation(false)]
    pub fn dump(&self, arena: &Vec<KeywordExt>) -> (r: String)
        requires
            self.inv(sigs_of(arena@)),
    {
        proof {
            vstd::arithmetic::power2::lemma2_to64();
            if self.log_size < 31 {
                lemma_pow2_strictly_increases(self.log_size as nat, 31);
            }
            assert(self.table@.len() <= 0x8000_0000);
        }
        let mut field_width: usize = 0;
        let mut i: usize = 0;
        while i < self.table.len()
            invariant
                i <= self.table@.len(),
            decreases self.table@.len() - i,
        {
            if let Some(j) = self.table[i] {
                proof {
                    assert(self.stored_ok(sigs_of(arena@), i as int));
                }
                let l: usize = arena[j].selchars.len();
                if l > field_width {
                    field_width = l;
                }
            }
            i = i + 1;
        }
        let mut out: Vec<u8> = Vec::new();
        let mut q: usize = 0;
        while q < self.table.len()
            invariant
                q <= self.table@.len(),
                self.table@.len() <= 0x8000_0000,
                forall|m: int| 0 <= m < out@.len() ==> #[trigger] out@[m] < 128,
            decreases self.table@.len() - q,
        {
            if let Some(j) = self.table[q] {
                proof {
                    assert(self.stored_ok(sigs_of(arena@), q as int));
                }
                let ghost out0 = out@;
                push_dec(&mut out, q as u32);
                proof {
                    crate::positions::lemma_dec_digits_ascii(q as int);
                    assert forall|m: int| 0 <= m < out@.len() implies #[trigger] out@[m]
                        < 128 by {
                        if m >= out0.len() {
                            assert(out@[m] == dec_digits(q as int)[m - out0.len()]);
                        }
                    }
                }
                out.push(44);
                out.push(32);
                let sel_len: usize = arena[j].selchars.len();
                let mut p: usize = sel_len;
                while p < field_width
                    invariant
                        forall|m: int| 0 <= m < out@.len() ==> #[trigger] out@[m] < 128,
                    decreases field_width - p,
                {
                    out.push(32);
                    p = p + 1;
                }
                let mut m: usize = 0;
                while m < arena[j].selchars.len()
                    invariant
                        j < arena@.len(),
                        forall|w: int| 0 <= w < out@.len() ==> #[trigger] out@[w] < 128,
                    decreases arena[j as int].selchars@.len() - m,
                {
                    let c: u32 = arena[j].selchars[m];
                    if 32 <= c && c < 127 {
                        out.push(c as u8);
                    } else {
                        out.push(63);
                    }
                    m = m + 1;
                }
                out.push(44);
                out.push(32);
                let mut w: usize = 0;
                while w < arena[j].keyword.allchars.len()
                    invariant
                        j < arena@.len(),
                        forall|m2: int| 0 <= m2 < out@.len() ==> #[trigger] out@[m2] < 128,
                    decreases arena[j as int].keyword.allchars@.len() - w,
                {
                    let b: u8 = arena[j].keyword.allchars[w];
                    if 32 <= b && b < 127 {
                        out.push(b);
                    } else {
                        out.push(63);
                    }
                    w = w + 1;
                }
                out.push(10);
            }
            q = q + 1;
        }
        crate::positions::ascii_string(&out)
    }
}

/// A probe slot is a valid slot index.
proof fn lemma_probe_at_bounds(h: int, inc: int, size: int, t: int)
    requires
        size > 0,
    ensures
        0 <= probe_at(h, inc, size, t) < size,
{
    vstd::arithmetic::div_mod::lemma_mod_division_less_than_divisor(h + t * inc, size);
}

/// The increment computed from any hash word is odd.
proof fn lemma_shl1_or1_odd(y: u32)
    ensures
        (((y << 1) | 1) as int) % 2 == 1,
{
    assert(((y << 1) | 1) % 2u32 == 1u32) by (bit_vector);
}

/// An odd multiple of `d` is divisible by `2^k` only when `d` is: within
/// `[0, 2^k)`, only `d == 0` qualifies.
proof fn lemma_odd_multiple_pow2(d: int, inc: int, k: nat)
    requires
        inc % 2 == 1,
        0 <= d < pow2(k),
        (d * inc) % (pow2(k) as int) == 0,
    ensures
        d == 0,
    decreases k,
{
    vstd::arithmetic::power2::lemma2_to64();
    if k == 0 || d == 0 {
    } else {
        let n = pow2(k) as int;
        let half = pow2((k - 1) as nat) as int;
        lemma_pow2_unfold(k);
        lemma_pow2_pos((k - 1) as nat);
        vstd::arithmetic::div_mod::lemma_fundamental_div_mod(d * inc, n);
        let q = (d * inc) / n;
        assert(d * inc == n * q);
        if d % 2 == 1 {
            vstd::arithmetic::div_mod::lemma_mul_mod_noop(d, inc, 2);
            assert((d * inc) % 2 == 1);
            assert(n * q == 2 * (half * q)) by (nonlinear_arith)
                requires
                    n == 2 * half,
            ;
            vstd::arithmetic::div_mod::lemma_mod_multiples_basic(half * q, 2);
            assert((2 * (half * q)) % 2 == 0) by {
                assert(2 * (half * q) == (half * q) * 2);
            }
        } else {
            vstd::arithmetic::div_mod::lemma_fundamental_div_mod(d, 2);
            let d2 = d / 2;
            assert(d == 2 * d2);
            assert(d * inc == 2 * (d2 * inc)) by (nonlinear_arith)
                requires
                    d == 2 * d2,
            ;
            assert(n * q == 2 * (half * q)) by (nonlinear_arith)
                requires
                    n == 2 * half,
            ;
            assert(d2 * inc == half * q);
            vstd::arithmetic::div_mod::lemma_mod_multiples_basic(q, half);
            assert((d2 * inc) % half == 0) by {
                assert(half * q == q * half);
            }
            lemma_odd_multiple_pow2(d2, inc, (k - 1) as nat);
            assert(d == 0);
        }
    }
}

/// Full-cycle probing: with an odd increment, the first `2^k` slots of a
/// probe sequence over a table of `2^k` slots are pairwise distinct, so the
/// sequence visits every slot before it repeats.
pub proof fn lemma_probe_distinct(h: int, inc: int, k: nat, t1: int, t2: int)
    requires
        inc % 2 == 1,
        0 <= t1 < t2 < pow2(k),
    ensures
        probe_at(h, inc, pow2(k) as int, t1) != probe_at(h, inc, pow2(k) as int, t2),
{
    let n = pow2(k) as int;
    lemma_pow2_pos(k);
    if probe_at(h, inc, n, t1) == probe_at(h, inc, n, t2) {
        let a = h + t1 * inc;
        let b = h + t2 * inc;
        let d = t2 - t1;
        vstd::arithmetic::div_mod::lemma_fundamental_div_mod(a, n);
        vstd::arithmetic::div_mod::lemma_fundamental_div_mod(b, n);
        let qa = a / n;
        let qb = b / n;
        assert(b - a == n * (qb - qa)) by (nonlinear_arith)
            requires
                a == n * qa + a % n,
                b == n * qb + b % n,
                a % n == b % n,
        ;
        assert(b - a == d * inc) by (nonlinear_arith)
            requires
                a == h + t1 * inc,
                b == h + t2 * inc,
                d == t2 - t1,
        ;
        vstd::arithmetic::div_mod::lemma_mod_multiples_basic(qb - qa, n);
        assert((d * inc) % n == 0) by {
            assert(d * inc == (qb - qa) * n) by (nonlinear_arith)
                requires
                    d * inc == n * (qb - qa),
            ;
        }
        lemma_odd_multiple_pow2(d, inc, k);
        assert(false);
    }
}

/// The double-hashing increment of any signature is odd, so by
/// [`lemma_probe_distinct`] its probe sequence over a table of `2^k` slots
/// visits every slot once before repeating.
pub proof fn lemma_increment_odd(sig: Sig, log_size: nat, ignore_length: bool)
    ensures
        (inc_of(sig, log_size, ignore_length) as int) % 2 == 1,
{
    let h = hash_spec(sig.selchars);
    let x: u32 = if ignore_length {
        0u32
    } else {
        sig.kwlen as u32
    };
    lemma_shl1_or1_odd((h >> (log_size as u32)) ^ x);
}

/// Once an extension is stored, the table holds an occupant whose signature
/// equals its own, so by `insert`'s contract any later insert of an equal
/// signature returns that occupant and leaves the slots unchanged.
pub proof fn lemma_duplicate_after_store(
    pre: Hash_Table,
    post: Hash_Table,
    sigs: Seq<Sig>,
    q: int,
    item: usize,
)
    requires
        0 <= q < pre.size(),
        pre.table@[q] is None,
        post.table@ == pre.table@.update(q, Some(item)),
        post.ignore_length == pre.ignore_length,
        item < sigs.len(),
    ensures
        post.contains_equal(sigs, item as int),
{
    assert(post.table@[q] == Some(item));
    assert(0 <= q < post.size() && ((post.table@[q]) matches Some(j) && sig_eq(
        sigs[j as int],
        sigs[item as int],
        post.ignore_length,
    )));
}

/// The set of slots probed in the first `t` steps.
spec fn probe_set(h: int, inc: int, size: int, t: int) -> Set<int> {
    Set::new(|q: int| exists|m: int| 0 <= m < t && probe_at(h, inc, size, m) == q)
}

/// With an odd increment, the first `t <= 2^k` probe slots are `t` distinct
/// valid slot indices.
proof fn lemma_probe_set_card(h: int, inc: int, k: nat, t: int)
    requires
        inc % 2 == 1,
        0 <= t <= pow2(k),
    ensures
        probe_set(h, inc, pow2(k) as int, t).finite(),
        probe_set(h, inc, pow2(k) as int, t).len() == t,
        forall|q: int| probe_set(h, inc, pow2(k) as int, t).contains(q) ==> 0 <= q < pow2(k),
    decreases t,
{
    let n = pow2(k) as int;
    lemma_pow2_pos(k);
    if t == 0 {
        assert(probe_set(h, inc, n, 0) =~= Set::<int>::empty());
    } else {
        lemma_probe_set_card(h, inc, k, t - 1);
        let prev = probe_set(h, inc, n, t - 1);
        let slot = probe_at(h, inc, n, t - 1);
        lemma_probe_at_bounds(h, inc, n, t - 1);
        assert(probe_set(h, inc, n, t) =~= prev.insert(slot)) by {
            assert forall|q: int| probe_set(h, inc, n, t).contains(q) implies prev.insert(
                slot,
            ).contains(q) by {
                let m = choose|m: int| 0 <= m < t && probe_at(h, inc, n, m) == q;
                if m < t - 1 {
                    assert(prev.contains(q));
                }
            }
            assert forall|q: int| prev.insert(slot).contains(q) implies probe_set(
                h,
                inc,
                n,
                t,
            ).contains(q) by {
                if prev.contains(q) {
                    let m = choose|m: int| 0 <= m < t - 1 && probe_at(h, inc, n, m) == q;
                    assert(0 <= m < t && probe_at(h, inc, n, m) == q);
                } else {
                    assert(probe_at(h, inc, n, t - 1) == q);
                }
            }
        }
        assert(!prev.contains(slot)) by {
            if prev.contains(slot) {
                let m = choose|m: int| 0 <= m < t - 1 && probe_at(h, inc, n, m) == slot;
                lemma_probe_distinct(h, inc, k, m, t - 1);
            }
        }
    }
}

/// A table with fewer occupied slots than slots has an empty slot.
proof fn lemma_exists_empty_slot(t: Seq<Option<usize>>)
    requires
        count_some(t) < t.len(),
    ensures
        exists|q: int| 0 <= q < t.len() && t[q] is None,
    decreases t.len(),
{
    if t.last() is None {
        assert(t[t.len() - 1] is None);
    } else {
        lemma_exists_empty_slot(t.drop_last());
        let q = choose|q: int| 0 <= q < t.len() - 1 && t.drop_last()[q] is None;
        assert(t[q] is None);
    }
}

/// A table with an empty slot has an empty slot on every probe sequence
/// within its first `2^k` steps: the sequence is a full cycle, so it visits
/// every slot.
proof fn lemma_walk_hits_empty(h: int, inc: int, k: nat, t: Seq<Option<usize>>)
    requires
        inc % 2 == 1,
        t.len() == pow2(k),
        count_some(t) < t.len(),
    ensures
        exists|m: int|
            0 <= m < t.len() && t[probe_at(h, inc, t.len() as int, m)] is None,
{
    let n = t.len() as int;
    lemma_pow2_pos(k);
    lemma_exists_empty_slot(t);
    let q = choose|q: int| 0 <= q < n && t[q] is None;
    if forall|m: int| 0 <= m < n ==> t[probe_at(h, inc, n, m)] is Some {
        lemma_probe_set_card(h, inc, k, n);
        let pset = probe_set(h, inc, n, n);
        assert(!pset.contains(q));
        let range = vstd::set_lib::set_int_range(0, n);
        vstd::set_lib::lemma_int_range(0, n);
        assert(pset.subset_of(range));
        assert(range.contains(q));
        pset.lemma_subset_not_in_lt(range, q);
        assert(false);
    }
    let m = choose|m: int| 0 <= m < n && !(t[probe_at(h, inc, n, m)] is Some);
    assert(t[probe_at(h, inc, n, m)] is None);
}

/// Storing into an empty slot raises the occupied count by one.
proof fn lemma_count_some_update(t: Seq<Option<usize>>, q: int, i: usize)
    requires
        0 <= q < t.len(),
        t[q] is None,
    ensures
        count_some(t.update(q, Some(i))) == count_some(t) + 1,
    decreases t.len(),
{
    let t2 = t.update(q, Some(i));
    if q == t.len() - 1 {
        assert(t2.drop_last() =~= t.drop_last());
    } else {
        lemma_count_some_update(t.drop_last(), q, i);
        assert(t2.drop_last() =~= t.drop_last().update(q, Some(i)));
        assert(t2.last() == t.last());
    }
}

/// A table with no occupied slot counts zero.
proof fn lemma_count_some_all_none(t: Seq<Option<usize>>)
    requires
        forall|q: int| 0 <= q < t.len() ==> t[q] is None,
    ensures
        count_some(t) == 0,
    decreases t.len(),
{
    if t.len() > 0 {
        lemma_count_some_all_none(t.drop_last());
    }
}

} // verus!
