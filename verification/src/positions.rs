//! Sorted sets of key positions and iterators over them.
//!
//! A position set holds distinct character positions in strictly descending
//! order, where the sentinel `LASTCHAR` ("the last character of the keyword",
//! written `$` in position specifications) counts as larger than every
//! explicit position.

use vstd::prelude::*;

verus! {

/// Sentinel position standing for the last character of a keyword.
pub const LASTCHAR: i32 = -1;

/// Exclusive upper bound on explicit (0-based) key positions.
pub const MAX_KEY_POS: i32 = 255;

/// Capacity of a position set: every explicit position plus the sentinel.
pub const MAX_SIZE: usize = 256;

/// Value returned by an exhausted position iterator; distinct from every
/// valid position and from `LASTCHAR`.
pub const EOS: i32 = -2;

/// A value that may be stored in a position set: an explicit position in
/// `[0, MAX_KEY_POS)` or the sentinel `LASTCHAR`.
pub open spec fn valid_pos(p: i32) -> bool {
    p == LASTCHAR || 0 <= p < MAX_KEY_POS
}

/// Ordering rank of a stored value: `LASTCHAR` ranks above every explicit
/// position.  On valid positions the rank is injective, since explicit
/// positions stay below `MAX_KEY_POS`.
pub open spec fn pos_rank(p: i32) -> int {
    if p == LASTCHAR {
        MAX_KEY_POS as int
    } else {
        p as int
    }
}

/// Strictly descending by rank; implies that all entries are distinct.
pub open spec fn sorted_desc(s: Seq<i32>) -> bool {
    forall|i: int, j: int| 0 <= i < j < s.len() ==> pos_rank(s[i]) > pos_rank(s[j])
}

/// Every entry is a valid position.
pub open spec fn valid_entries(s: Seq<i32>) -> bool {
    forall|i: int| 0 <= i < s.len() ==> valid_pos(s[i])
}

/// Descending by rank, duplicates allowed.
pub open spec fn sorted_desc_weak(s: Seq<i32>) -> bool {
    forall|i: int, j: int| 0 <= i < j < s.len() ==> pos_rank(s[i]) >= pos_rank(s[j])
}

/// A strictly descending sequence is also weakly descending.
proof fn lemma_sorted_desc_weak(s: Seq<i32>)
    requires
        sorted_desc(s),
    ensures
        sorted_desc_weak(s),
{
}

/// The contents a set shows in "use all positions" mode: every explicit
/// position, in descending order.
pub open spec fn useall_seq() -> Seq<i32> {
    Seq::new(MAX_KEY_POS as nat, |i: int| (MAX_KEY_POS - 1 - i) as i32)
}

/// Why a position-set edit was refused.  The caller decides whether to stop
/// the process; the set itself is left unchanged.
#[derive(Clone, Copy, Debug, PartialEq, Eq, Structural)]
pub enum PositionsError {
    /// `add` on a set that already holds `MAX_SIZE` entries.
    Overflow,
    /// `add` of a position that is already present.
    Duplicate,
    /// `remove` of a position that is not present.
    NotFound,
}

/// The sequence `s` with `pos` inserted at its descending-rank slot.
pub open spec fn insert_desc(s: Seq<i32>, pos: i32) -> Seq<i32>
    decreases s.len(),
{
    if s.len() == 0 {
        seq![pos]
    } else if pos_rank(s[0]) > pos_rank(pos) {
        seq![s[0]] + insert_desc(s.drop_first(), pos)
    } else {
        seq![pos] + s
    }
}

/// The sequence `s` with the first occurrence of `pos` removed.
pub open spec fn remove_desc(s: Seq<i32>, pos: i32) -> Seq<i32>
    decreases s.len(),
{
    if s.len() == 0 {
        s
    } else if s[0] == pos {
        s.drop_first()
    } else {
        seq![s[0]] + remove_desc(s.drop_first(), pos)
    }
}

/// A set of key positions, stored in strictly descending rank order.
///
/// The fields are public so that contracts can speak about them directly;
/// every operation requires and preserves the well-formedness predicate
/// [`Positions::wf`].
pub struct Positions {
    /// True when the set stands for "use every position up to the keyword
    /// length"; the explicit entries then materialize `useall_seq()`.
    pub useall: bool,
    /// Number of stored entries; the first `size` slots of `storage`.
    pub size: usize,
    /// Fixed backing array of `MAX_SIZE` slots.
    pub storage: Vec<i32>,
}

impl View for Positions {
    type V = Seq<i32>;

    /// The stored entries, in storage (descending) order.
    open spec fn view(&self) -> Seq<i32> {
        self.storage@.take(self.size as int)
    }
}

impl Positions {
    /// Physical invariant: the backing array always has `MAX_SIZE` slots.
    pub open spec fn inv(&self) -> bool {
        &&& self.storage@.len() == MAX_SIZE
        &&& self.size <= MAX_SIZE
    }

    /// Well-formed position set: valid entries in strictly descending rank
    /// order, and in use-all mode exactly the full descending run.
    pub open spec fn wf(&self) -> bool {
        &&& self.inv()
        &&& valid_entries(self@)
        &&& sorted_desc(self@)
        &&& self.useall ==> self@ == useall_seq()
    }

    /// True when the set is in "use all positions" mode.
    pub fn is_useall(&self) -> (r: bool)
        ensures
            r == self.useall,
    {
        self.useall
    }

    /// Number of stored entries.
    pub fn get_size(&self) -> (r: usize)
        requires
            self.inv(),
        ensures
            r == self@.len(),
    {
        self.size
    }

    /// Read access to the backing array; the first `get_size()` slots hold
    /// the entries.
    pub fn pointer(&self) -> (r: &Vec<i32>)
        ensures
            r == self.storage,
    {
        &self.storage
    }

    /// Overwrite one slot of the backing array; used together with
    /// [`Positions::set_size`] and [`Positions::sort`] to bulk-load the set
    /// from a parsed position specification.
    pub fn set_position(&mut self, index: usize, value: i32)
        requires
            old(self).inv(),
            index < MAX_SIZE,
        ensures
            final(self).inv(),
            final(self).storage@ == old(self).storage@.update(index as int, value),
            final(self).size == old(self).size,
            final(self).useall == old(self).useall,
    {
        self.storage[index] = value;
    }

    /// Declare how many leading slots of the backing array hold entries.
    pub fn set_size(&mut self, size: usize)
        requires
            old(self).inv(),
            size <= MAX_SIZE,
        ensures
            final(self).inv(),
            final(self).size == size,
            final(self).storage == old(self).storage,
            final(self).useall == old(self).useall,
    {
        self.size = size;
    }

    /// Switch "use all positions" mode on or off.  Enabling materializes
    /// every explicit position in descending order; disabling only clears
    /// the flag and keeps the entries.
    #[verifier::loop_isolation(false)]
    pub fn set_useall(&mut self, useall: bool)
        requires
            old(self).inv(),
        ensures
            final(self).inv(),
            final(self).useall == useall,
            useall ==> final(self)@ == useall_seq() && final(self).wf(),
            !useall ==> final(self)@ == old(self)@,
            !useall && old(self).wf() ==> final(self).wf(),
    {
        self.useall = useall;
        if useall {
            self.size = MAX_KEY_POS as usize;
            let mut i: usize = 0;
            while i < MAX_KEY_POS as usize
                invariant
                    self.useall,
                    self.storage@.len() == MAX_SIZE,
                    self.size == MAX_KEY_POS as usize,
                    i <= MAX_KEY_POS as usize,
                    forall|k: int| 0 <= k < i ==> self.storage@[k] == MAX_KEY_POS - 1 - k,
                decreases MAX_KEY_POS as usize - i,
            {
                self.storage[i] = MAX_KEY_POS - 1 - (i as i32);
                i = i + 1;
            }
            proof {
                assert(self@ =~= useall_seq());
                assert forall|a: int, b: int| 0 <= a < b < self@.len() implies pos_rank(
                    self@[a],
                ) > pos_rank(self@[b]) by {
                    assert(self@[a] == MAX_KEY_POS - 1 - a);
                    assert(self@[b] == MAX_KEY_POS - 1 - b);
                }
                assert forall|a: int| 0 <= a < self@.len() implies valid_pos(self@[a]) by {
                    assert(self@[a] == MAX_KEY_POS - 1 - a);
                }
            }
        }
    }

    /// Membership test, scanning front to back and stopping early once a
    /// stored value ranks below `pos`.
    #[verifier::loop_isolation(false)]
    pub fn contains(&self, pos: i32) -> (r: bool)
        requires
            self.wf(),
        ensures
            r == self@.contains(pos),
    {
        let mut k: usize = 0;
        while k < self.size
            invariant
                self.wf(),
                k <= self.size,
                forall|i: int| 0 <= i < k ==> self@[i] != pos,
            decreases self.size - k,
        {
            let stored: i32 = self.storage[k];
            if stored == pos {
                proof {
                    assert(self@[k as int] == pos);
                }
                return true;
            }
            if pos_rank_exec(stored) < pos_rank_exec(pos) {
                proof {
                    assert forall|i: int| 0 <= i < self@.len() implies self@[i] != pos by {
                        if k <= i {
                            assert(pos_rank(self@[i]) <= pos_rank(self@[k as int]));
                        }
                    }
                }
                return false;
            }
            k = k + 1;
        }
        proof {
            assert(forall|i: int| 0 <= i < self@.len() ==> self@[i] != pos);
        }
        false
    }

    /// Insert `pos` at its descending-rank slot by a single right shift.
    /// Refused with `Overflow` on a full set and with `Duplicate` when `pos`
    /// is already present; the entries are then left unchanged.  Clears
    /// use-all mode in every case.
    #[verifier::loop_isolation(false)]
    pub fn add(&mut self, pos: i32) -> (r: Result<(), PositionsError>)
        requires
            old(self).wf(),
            valid_pos(pos),
        ensures
            final(self).wf(),
            !final(self).useall,
            old(self)@.len() == MAX_SIZE ==> r == Err::<(), PositionsError>(
                PositionsError::Overflow,
            ) && final(self)@ == old(self)@,
            old(self)@.len() < MAX_SIZE && old(self)@.contains(pos) ==> r == Err::<
                (),
                PositionsError,
            >(PositionsError::Duplicate) && final(self)@ == old(self)@,
            old(self)@.len() < MAX_SIZE && !old(self)@.contains(pos) ==> r == Ok::<
                (),
                PositionsError,
            >(()) && final(self)@ == insert_desc(old(self)@, pos),
    {
        self.useall = false;
        if self.size == MAX_SIZE {
            return Err(PositionsError::Overflow);
        }
        let ghost v0 = self@;
        let mut k: usize = 0;
        let mut stop: bool = false;
        while k < self.size && !stop
            invariant
                k <= self.size,
                forall|i: int| 0 <= i < k ==> pos_rank(self@[i]) > pos_rank(pos),
                stop ==> k < self.size && pos_rank(self@[k as int]) < pos_rank(pos),
            decreases self.size - k + (if stop {
                0int
            } else {
                1int
            }),
        {
            let stored: i32 = self.storage[k];
            proof {
                assert(stored == self@[k as int]);
            }
            if stored == pos {
                proof {
                    assert(self@[k as int] == pos);
                }
                return Err(PositionsError::Duplicate);
            }
            if pos_rank_exec(stored) < pos_rank_exec(pos) {
                stop = true;
            } else {
                k = k + 1;
            }
        }
        proof {
            assert forall|i: int| 0 <= i < self@.len() implies self@[i] != pos by {
                if k <= i {
                    assert(pos_rank(self@[i]) <= pos_rank(self@[k as int]));
                }
            }
        }
        let ghost s0 = self.storage@;
        let mut j: usize = self.size;
        while j > k
            invariant
                !self.useall,
                self.size == v0.len(),
                k <= j <= self.size,
                self.size < MAX_SIZE,
                self.storage@.len() == MAX_SIZE,
                forall|i: int| 0 <= i < j ==> self.storage@[i] == s0[i],
                forall|i: int| j < i <= self.size ==> self.storage@[i] == s0[i - 1],
            decreases j,
        {
            let moved: i32 = self.storage[j - 1];
            self.storage[j] = moved;
            j = j - 1;
        }
        self.storage[k] = pos;
        self.size = self.size + 1;
        proof {
            let target = v0.take(k as int) + seq![pos] + v0.skip(k as int);
            assert(self@.len() == v0.len() + 1);
            assert forall|i: int| 0 <= i < self@.len() implies self@[i] == target[i] by {
                if i < k {
                    assert(self.storage@[i] == s0[i]);
                    assert(target[i] == v0[i]);
                    assert(v0[i] == s0[i]);
                } else if i == k {
                    assert(self.storage@[i] == pos);
                    assert(target[i] == pos);
                } else {
                    assert(self.storage@[i] == s0[i - 1]);
                    assert(target[i] == v0[i - 1]);
                    assert(v0[i - 1] == s0[i - 1]);
                }
            }
            assert(self@ =~= v0.take(k as int) + seq![pos] + v0.skip(k as int));
            lemma_insert_desc_at(v0, pos, k as int);
            assert forall|a: int, b: int| 0 <= a < b < self@.len() implies pos_rank(self@[a])
                > pos_rank(self@[b]) by {
                if b < k {
                } else if b == k {
                    assert(self@[a] == v0[a]);
                } else if a == k {
                    assert(self@[b] == v0[b - 1]);
                    assert(pos_rank(v0[k as int]) < pos_rank(pos));
                    assert(pos_rank(v0[b - 1]) <= pos_rank(v0[k as int]));
                } else if a < k {
                    assert(self@[a] == v0[a] && self@[b] == v0[b - 1]);
                } else {
                    assert(self@[a] == v0[a - 1] && self@[b] == v0[b - 1]);
                }
            }
            assert(valid_entries(self@)) by {
                assert forall|i: int| 0 <= i < self@.len() implies valid_pos(self@[i]) by {
                    if i < k {
                        assert(self@[i] == v0[i]);
                    } else if i > k {
                        assert(self@[i] == v0[i - 1]);
                    }
                }
            }
        }
        Ok(())
    }

    /// Remove `pos`, closing the gap with a single left shift.  Refused with
    /// `NotFound` when `pos` is not present; the entries are then left
    /// unchanged.  Clears use-all mode in every case.
    #[verifier::loop_isolation(false)]
    pub fn remove(&mut self, pos: i32) -> (r: Result<(), PositionsError>)
        requires
            old(self).wf(),
        ensures
            final(self).wf(),
            !final(self).useall,
            old(self)@.contains(pos) ==> r == Ok::<(), PositionsError>(()) && final(self)@
                == remove_desc(old(self)@, pos),
            !old(self)@.contains(pos) ==> r == Err::<(), PositionsError>(PositionsError::NotFound)
                && final(self)@ == old(self)@,
    {
        self.useall = false;
        let ghost v0 = self@;
        let mut k: usize = 0;
        let mut found: bool = false;
        while k < self.size && !found
            invariant
                self.wf(),
                !self.useall,
                self@ == v0,
                k <= self.size,
                !found ==> forall|i: int| 0 <= i < k ==> self@[i] != pos,
                found ==> k < self.size && self@[k as int] == pos && forall|i: int|
                    0 <= i < k ==> self@[i] != pos,
            decreases self.size - k + (if found { 0int } else { 1int }),
        {
            let stored: i32 = self.storage[k];
            proof {
                assert(stored == self@[k as int]);
            }
            if stored == pos {
                found = true;
            } else if pos_rank_exec(stored) < pos_rank_exec(pos) {
                proof {
                    assert forall|i: int| 0 <= i < self@.len() implies self@[i] != pos by {
                        if k <= i {
                            assert(pos_rank(self@[i]) <= pos_rank(self@[k as int]));
                        }
                    }
                }
                return Err(PositionsError::NotFound);
            } else {
                k = k + 1;
            }
        }
        if !found {
            proof {
                assert(forall|i: int| 0 <= i < self@.len() ==> self@[i] != pos);
            }
            return Err(PositionsError::NotFound);
        }
        let ghost s0 = self.storage@;
        let mut j: usize = k;
        while j + 1 < self.size
            invariant
                !self.useall,
                self.size == v0.len(),
                k <= j < self.size,
                self.size <= MAX_SIZE,
                self.storage@.len() == MAX_SIZE,
                forall|i: int| 0 <= i < k ==> self.storage@[i] == s0[i],
                forall|i: int| k <= i < j ==> self.storage@[i] == s0[i + 1],
                forall|i: int| j <= i < self.size ==> self.storage@[i] == s0[i],
            decreases self.size - j,
        {
            let moved: i32 = self.storage[j + 1];
            self.storage[j] = moved;
            j = j + 1;
        }
        self.size = self.size - 1;
        proof {
            let target = v0.take(k as int) + v0.skip(k as int + 1);
            assert(self@.len() == v0.len() - 1);
            assert forall|i: int| 0 <= i < self@.len() implies self@[i] == target[i] by {
                if i < k {
                    assert(self.storage@[i] == s0[i]);
                    assert(target[i] == v0[i]);
                    assert(v0[i] == s0[i]);
                } else {
                    assert(self.storage@[i] == s0[i + 1]);
                    assert(target[i] == v0[i + 1]);
                    assert(v0[i + 1] == s0[i + 1]);
                }
            }
            assert(self@ =~= v0.take(k as int) + v0.skip(k as int + 1));
            lemma_remove_desc_at(v0, pos, k as int);
            assert forall|a: int, b: int| 0 <= a < b < self@.len() implies pos_rank(self@[a])
                > pos_rank(self@[b]) by {
                if a < k && b >= k {
                    assert(self@[a] == v0[a] && self@[b] == v0[b + 1]);
                } else if a >= k {
                    assert(self@[a] == v0[a + 1] && self@[b] == v0[b + 1]);
                }
            }
            assert(valid_entries(self@)) by {
                assert forall|i: int| 0 <= i < self@.len() implies valid_pos(self@[i]) by {
                    if i >= k {
                        assert(self@[i] == v0[i + 1]);
                    }
                }
            }
            assert(v0.contains(pos)) by {
                assert(v0[k as int] == pos);
            }
        }
        Ok(())
    }

    /// Sort the entries into descending rank order after a bulk load,
    /// reporting whether they were duplicate-free: `true` exactly when the
    /// result is strictly descending.  Trivially succeeds in use-all mode.
    #[verifier::loop_isolation(false)]
    pub fn sort(&mut self) -> (r: bool)
        requires
            old(self).inv(),
            old(self).useall ==> old(self).wf(),
        ensures
            final(self).inv(),
            final(self).useall == old(self).useall,
            final(self)@.to_multiset() == old(self)@.to_multiset(),
            old(self).useall ==> r && final(self)@ == old(self)@,
            sorted_desc_weak(final(self)@),
            r <==> sorted_desc(final(self)@),
            valid_entries(old(self)@) ==> valid_entries(final(self)@),
            valid_entries(old(self)@) && r ==> final(self).wf(),
    {
        if self.useall {
            proof {
                lemma_sorted_desc_weak(self@);
            }
            return true;
        }
        let ghost v0 = self@;
        let n: usize = self.size;
        let mut sorted: Vec<i32> = Vec::new();
        proof {
            assert(sorted@ =~= v0.take(0));
        }
        let mut m: usize = 0;
        while m < n
            invariant
                m <= n,
                !self.useall,
                self == old(self),
                sorted@.len() == m,
                sorted_desc_weak(sorted@),
                sorted@.to_multiset() == v0.take(m as int).to_multiset(),
            decreases n - m,
        {
            let ghost prefix = v0.take(m as int);
            let x: i32 = self.storage[m];
            proof {
                assert(v0.take(m as int + 1) =~= prefix.push(x));
                prefix.to_multiset_ensures();
            }
            insert_sorted_desc(&mut sorted, x);
            m = m + 1;
        }
        proof {
            assert(v0.take(n as int) =~= v0);
        }
        let mut i: usize = 0;
        while i < n
            invariant
                i <= n,
                !self.useall,
                self.size == n,
                self.storage@.len() == MAX_SIZE,
                sorted@.len() == n,
                forall|k: int| 0 <= k < i ==> self.storage@[k] == sorted@[k],
            decreases n - i,
        {
            let x: i32 = sorted[i];
            self.storage[i] = x;
            i = i + 1;
        }
        proof {
            assert(self@ =~= sorted@);
        }
        let mut dup_free: bool = true;
        let mut k: usize = 1;
        while k < n
            invariant
                1 <= k <= n || (n == 0 && k == 1),
                dup_free <==> forall|i: int|
                    0 <= i < k - 1 ==> pos_rank(#[trigger] self@[i]) > pos_rank(self@[i + 1]),
            decreases n - k,
        {
            let a: i32 = self.storage[k - 1];
            let b: i32 = self.storage[k];
            if pos_rank_exec(a) <= pos_rank_exec(b) {
                proof {
                    assert(!(pos_rank(self@[k as int - 1]) > pos_rank(self@[k as int])));
                }
                dup_free = false;
            }
            k = k + 1;
        }
        proof {
            if dup_free {
                assert forall|a: int, b: int| 0 <= a < b < self@.len() implies pos_rank(self@[a])
                    > pos_rank(self@[b]) by {
                    assert(pos_rank(self@[a]) > pos_rank(self@[a + 1]));
                    assert(pos_rank(self@[a + 1]) >= pos_rank(self@[b]));
                }
            } else {
                assert(!sorted_desc(self@)) by {
                    let i = choose|i: int|
                        0 <= i < n - 1 && !(pos_rank(#[trigger] self@[i]) > pos_rank(self@[i + 1]));
                    assert(!(pos_rank(self@[i]) > pos_rank(self@[i + 1])));
                }
            }
            if valid_entries(v0) {
                assert forall|i: int| 0 <= i < self@.len() implies valid_pos(self@[i]) by {
                    self@.to_multiset_ensures();
                    v0.to_multiset_ensures();
                    assert(self@.to_multiset().contains(self@[i]));
                    assert(v0.to_multiset().contains(self@[i]));
                    let w = choose|w: int| 0 <= w < v0.len() && v0[w] == self@[i];
                    assert(valid_pos(v0[w]));
                }
            }
        }
        dup_free
    }

    /// A forward iterator over the entries, clipped to keyword length
    /// `maxlen`; yields ascending rank order.
    #[verifier::loop_isolation(false)]
    pub fn iterator(&self, maxlen: usize) -> (it: PositionIterator)
        requires
            self.wf(),
        ensures
            it.inv(),
            it.index == 0,
            it@ == clip_asc(self@, maxlen),
    {
        let mut out: Vec<i32> = Vec::new();
        let mut i: usize = self.size;
        while i > 0
            invariant
                i <= self.size,
                out@ == clip_asc(self@.skip(i as int), maxlen),
            decreases i,
        {
            let ghost before = self@.skip(i as int);
            i = i - 1;
            let p: i32 = self.storage[i];
            proof {
                assert(self@.skip(i as int).drop_first() =~= before);
                assert(self@.skip(i as int).first() == p);
            }
            if keeps_exec(p, maxlen) {
                out.push(p);
                proof {
                    assert(out@ =~= clip_asc(before, maxlen) + seq![p]);
                }
            }
        }
        proof {
            assert(self@.skip(0) =~= self@);
        }
        let it = PositionIterator { seq: out, index: 0 };
        proof {
            assert(it@ =~= it.seq@);
        }
        it
    }

    /// A reverse iterator over the entries, clipped to keyword length
    /// `maxlen`; yields descending rank order (`LASTCHAR` first when
    /// present).
    #[verifier::loop_isolation(false)]
    pub fn reviterator(&self, maxlen: usize) -> (it: PositionReverseIterator)
        requires
            self.wf(),
        ensures
            it.inv(),
            it.index == 0,
            it@ == clip_desc(self@, maxlen),
    {
        let mut out: Vec<i32> = Vec::new();
        let mut i: usize = 0;
        while i < self.size
            invariant
                i <= self.size,
                out@ == clip_desc(self@.take(i as int), maxlen),
            decreases self.size - i,
        {
            let ghost before = self@.take(i as int);
            let p: i32 = self.storage[i];
            proof {
                assert(self@.take(i as int + 1).drop_last() =~= before);
                assert(self@.take(i as int + 1).last() == p);
            }
            if keeps_exec(p, maxlen) {
                out.push(p);
                proof {
                    assert(out@ =~= clip_desc(before, maxlen) + seq![p]);
                }
            }
            i = i + 1;
        }
        proof {
            assert(self@.take(self.size as int) =~= self@);
        }
        let it = PositionReverseIterator { seq: out, index: 0 };
        proof {
            assert(it@ =~= it.seq@);
        }
        it
    }

    /// Render the set for diagnostics: `*` in use-all mode, else the
    /// 1-based positions ascending and comma-joined, runs collapsed to
    /// `a-b`, `$` last for `LASTCHAR`.  The caller decides where to write
    /// it.
    #[verifier::loop_isolation(false)]
    #[verifier::rlimit(50)]
    pub fn print(&self) -> (r: String)
        requires
            self.wf(),
        ensures
            r@.len() == render(self@, self.useall).len(),
            forall|i: int|
                0 <= i < r@.len() ==> r@[i] == (render(self@, self.useall)[i] as char),
    {
        let mut out: Vec<u8> = Vec::new();
        if self.useall {
            out.push(42);
            proof {
                assert(out@ =~= render(self@, self.useall));
            }
        } else {
            let mut asc: Vec<i32> = Vec::new();
            let mut i: usize = self.size;
            while i > 0
                invariant
                    i <= self.size,
                    asc@ == reals_asc(self@.skip(i as int)),
                decreases i,
            {
                let ghost before = self@.skip(i as int);
                i = i - 1;
                let p: i32 = self.storage[i];
                proof {
                    assert(self@.skip(i as int).drop_first() =~= before);
                    assert(self@.skip(i as int).first() == p);
                }
                if p != LASTCHAR {
                    asc.push(p);
                    proof {
                        assert(asc@ =~= reals_asc(before) + seq![p]);
                    }
                }
            }
            proof {
                assert(self@.skip(0) =~= self@);
                lemma_reals_asc_elements(self@);
            }
            let n: usize = asc.len();
            let mut k: usize = 0;
            while k < n
                invariant
                    k <= n,
                    n == asc@.len(),
                    asc@ == reals_asc(self@),
                    forall|m: int| 0 <= m < n ==> 0 <= #[trigger] asc@[m] < MAX_KEY_POS,
                    render_runs(asc@, 0) == out@ + render_runs(asc@, k as int),
                    forall|m: int| 0 <= m < out@.len() ==> #[trigger] out@[m] < 128,
                decreases n - k,
            {
                let mut j: usize = k;
                while j + 1 < n && asc[j + 1] == asc[j] + 1
                    invariant
                        k <= j < n,
                        n == asc@.len(),
                        run_end(asc@, k as int) == run_end(asc@, j as int),
                    decreases n - j,
                {
                    proof {
                        assert(run_end(asc@, j as int) == run_end(asc@, j as int + 1));
                    }
                    j = j + 1;
                }
                proof {
                    assert(run_end(asc@, k as int) == j as int);
                }
                let ghost out0 = out@;
                push_dec(&mut out, (asc[k] + 1) as u32);
                if j > k {
                    out.push(45);
                    push_dec(&mut out, (asc[j] + 1) as u32);
                }
                if j + 1 < n {
                    out.push(44);
                }
                proof {
                    assert(out@ =~= out0 + (dec_digits(asc@[k as int] + 1) + (if j > k {
                        seq![45u8] + dec_digits(asc@[j as int] + 1)
                    } else {
                        Seq::<u8>::empty()
                    }) + (if j + 1 < n {
                        seq![44u8]
                    } else {
                        Seq::<u8>::empty()
                    })));
                    assert(render_runs(asc@, 0) == out@ + render_runs(asc@, j as int + 1)) by {
                        assert(render_runs(asc@, k as int) =~= dec_digits(asc@[k as int] + 1) + (
                        if j > k {
                            seq![45u8] + dec_digits(asc@[j as int] + 1)
                        } else {
                            Seq::<u8>::empty()
                        }) + (if j + 1 < n {
                            seq![44u8] + render_runs(asc@, j as int + 1)
                        } else {
                            Seq::<u8>::empty()
                        }));
                        assert(render_runs(asc@, 0) =~= out@ + render_runs(asc@, j as int + 1));
                    }
                    lemma_dec_digits_ascii(asc@[k as int] + 1);
                    lemma_dec_digits_ascii(asc@[j as int] + 1);
                }
                k = j + 1;
            }
            let ghost has_last = self@.contains(LASTCHAR);
            proof {
                if self@.len() == 0 {
                    assert(!has_last);
                } else if self@[0] != LASTCHAR {
                    assert forall|w: int| 0 <= w < self@.len() implies self@[w] != LASTCHAR by {
                        if w > 0 && self@[w] == LASTCHAR {
                            assert(pos_rank(self@[0]) > pos_rank(self@[w]));
                            assert(valid_pos(self@[0]));
                        }
                    }
                    assert(!has_last);
                }
            }
            if self.size > 0 && self.storage[0] == LASTCHAR {
                proof {
                    assert(self@[0] == LASTCHAR);
                    assert(has_last);
                }
                if n > 0 {
                    out.push(44);
                }
                out.push(36);
            }
            proof {
                assert(out@ =~= render(self@, self.useall));
            }
        }
        proof {
            assert forall|m: int| 0 <= m < out@.len() implies out@[m] < 128 by {
                lemma_render_ascii_element(self@, self.useall, m);
            }
        }
        ascii_string(&out)
    }
}

/// Decimal digits are ASCII.
pub(crate) proof fn lemma_dec_digits_ascii(n: int)
    ensures
        forall|i: int| 0 <= i < dec_digits(n).len() ==> 48 <= #[trigger] dec_digits(n)[i] <= 57,
    decreases n,
{
    if n > 9 {
        lemma_dec_digits_ascii(n / 10);
        assert(dec_digits(n) == dec_digits(n / 10) + seq![(48 + n % 10) as u8]);
    }
}

/// Every byte of the rendering is ASCII.
proof fn lemma_render_ascii_element(s: Seq<i32>, useall: bool, m: int)
    requires
        0 <= m < render(s, useall).len(),
    ensures
        render(s, useall)[m] < 128,
{
    if !useall {
        let asc = reals_asc(s);
        lemma_render_runs_ascii(asc, 0);
    }
}

/// Every byte of a rendered run list is ASCII.
proof fn lemma_render_runs_ascii(s: Seq<i32>, i: int)
    ensures
        forall|m: int|
            0 <= m < render_runs(s, i).len() ==> #[trigger] render_runs(s, i)[m] < 128,
    decreases s.len() - i,
{
    if 0 <= i < s.len() {
        let j = run_end(s, i);
        lemma_run_end_bounds(s, i);
        lemma_render_runs_ascii(s, j + 1);
        lemma_dec_digits_ascii(s[i] + 1);
        lemma_dec_digits_ascii(s[j] + 1);
        let a = dec_digits(s[i] + 1);
        let b = if j > i {
            seq![45u8] + dec_digits(s[j] + 1)
        } else {
            Seq::<u8>::empty()
        };
        let c = if j + 1 < s.len() {
            seq![44u8] + render_runs(s, j + 1)
        } else {
            Seq::<u8>::empty()
        };
        assert(render_runs(s, i) == a + b + c);
        assert forall|m: int| 0 <= m < render_runs(s, i).len() implies #[trigger] render_runs(
            s,
            i,
        )[m] < 128 by {
            if m < a.len() {
                assert(render_runs(s, i)[m] == a[m]);
            } else if m < a.len() + b.len() {
                assert(render_runs(s, i)[m] == b[m - a.len()]);
                if m - a.len() > 0 {
                    assert(b[m - a.len()] == dec_digits(s[j] + 1)[m - a.len() - 1]);
                }
            } else {
                assert(render_runs(s, i)[m] == c[m - a.len() - b.len()]);
                if m - a.len() - b.len() > 0 {
                    assert(c[m - a.len() - b.len()] == render_runs(s, j + 1)[m - a.len() - b.len()
                        - 1]);
                }
            }
        }
    }
}

/// Every explicit position of a well-formed chain is in `[0, MAX_KEY_POS)`.
proof fn lemma_reals_asc_elements(s: Seq<i32>)
    requires
        valid_entries(s),
    ensures
        forall|i: int|
            0 <= i < reals_asc(s).len() ==> 0 <= #[trigger] reals_asc(s)[i] < MAX_KEY_POS,
    decreases s.len(),
{
    if s.len() > 0 {
        let rest = s.drop_first();
        assert(valid_entries(rest)) by {
            assert(forall|i: int| 0 <= i < rest.len() ==> rest[i] == s[i + 1]);
        }
        lemma_reals_asc_elements(rest);
        if s.first() != LASTCHAR {
            assert(reals_asc(s) == reals_asc(rest) + seq![s.first()]);
            assert(valid_pos(s[0]));
        }
    }
}

impl Default for Positions {
    /// The empty position set.
    fn default() -> (r: Positions)
        ensures
            r.wf(),
            !r.useall,
            r@ == Seq::<i32>::empty(),
    {
        let r = Positions { useall: false, size: 0, storage: vec![0i32; MAX_SIZE] };
        proof {
            assert(r@ =~= Seq::<i32>::empty());
        }
        r
    }
}

/// `insert_desc` splits the sequence at the first index whose entry ranks
/// below the inserted position.
proof fn lemma_insert_desc_at(s: Seq<i32>, pos: i32, k: int)
    requires
        0 <= k <= s.len(),
        forall|i: int| 0 <= i < k ==> pos_rank(s[i]) > pos_rank(pos),
        k < s.len() ==> pos_rank(s[k]) < pos_rank(pos),
    ensures
        insert_desc(s, pos) == s.take(k) + seq![pos] + s.skip(k),
    decreases k,
{
    if k == 0 {
        if s.len() == 0 {
            assert(insert_desc(s, pos) =~= s.take(0) + seq![pos] + s.skip(0));
        } else {
            assert(!(pos_rank(s[0]) > pos_rank(pos)));
            assert(insert_desc(s, pos) =~= s.take(0) + seq![pos] + s.skip(0));
        }
    } else {
        let rest = s.drop_first();
        assert forall|i: int| 0 <= i < k - 1 implies pos_rank(rest[i]) > pos_rank(pos) by {
            assert(rest[i] == s[i + 1]);
        }
        if k - 1 < rest.len() {
            assert(rest[k - 1] == s[k]);
        }
        lemma_insert_desc_at(rest, pos, k - 1);
        assert(pos_rank(s[0]) > pos_rank(pos));
        assert(insert_desc(s, pos) == seq![s[0]] + (rest.take(k - 1) + seq![pos] + rest.skip(k
            - 1)));
        assert(seq![s[0]] + (rest.take(k - 1) + seq![pos] + rest.skip(k - 1)) =~= s.take(k)
            + seq![pos] + s.skip(k));
    }
}

/// `remove_desc` splits the sequence at the first occurrence of the removed
/// position.
proof fn lemma_remove_desc_at(s: Seq<i32>, pos: i32, k: int)
    requires
        0 <= k < s.len(),
        s[k] == pos,
        forall|i: int| 0 <= i < k ==> s[i] != pos,
    ensures
        remove_desc(s, pos) == s.take(k) + s.skip(k + 1),
    decreases k,
{
    if k == 0 {
        assert(remove_desc(s, pos) =~= s.take(0) + s.skip(1));
    } else {
        let rest = s.drop_first();
        assert forall|i: int| 0 <= i < k - 1 implies rest[i] != pos by {
            assert(rest[i] == s[i + 1]);
        }
        assert(rest[k - 1] == s[k]);
        lemma_remove_desc_at(rest, pos, k - 1);
        assert(s[0] != pos);
        assert(remove_desc(s, pos) == seq![s[0]] + (rest.take(k - 1) + rest.skip(k)));
        assert(seq![s[0]] + (rest.take(k - 1) + rest.skip(k)) =~= s.take(k) + s.skip(k + 1));
    }
}

/// Round trip: adding a fresh position makes `contains` true, and removing
/// it right away restores the prior contents exactly, same order and size.
pub proof fn lemma_add_remove_round_trip(s: Seq<i32>, pos: i32)
    requires
        sorted_desc(s),
        !s.contains(pos),
    ensures
        insert_desc(s, pos).contains(pos),
        remove_desc(insert_desc(s, pos), pos) == s,
    decreases s.len(),
{
    if s.len() == 0 {
        assert(insert_desc(s, pos)[0] == pos);
        assert(remove_desc(insert_desc(s, pos), pos) =~= s);
    } else if pos_rank(s[0]) > pos_rank(pos) {
        let rest = s.drop_first();
        assert(!rest.contains(pos)) by {
            assert forall|i: int| 0 <= i < rest.len() implies rest[i] != pos by {
                assert(rest[i] == s[i + 1]);
                assert(s.contains(s[i + 1]) == false ==> s[i + 1] != pos);
                if s[i + 1] == pos {
                    assert(s.contains(pos));
                }
            }
        }
        assert(sorted_desc(rest)) by {
            assert forall|a: int, b: int| 0 <= a < b < rest.len() implies pos_rank(rest[a])
                > pos_rank(rest[b]) by {
                assert(rest[a] == s[a + 1] && rest[b] == s[b + 1]);
            }
        }
        lemma_add_remove_round_trip(rest, pos);
        let ins = insert_desc(s, pos);
        assert(ins == seq![s[0]] + insert_desc(rest, pos));
        assert(ins.contains(pos)) by {
            let w = choose|w: int|
                0 <= w < insert_desc(rest, pos).len() && insert_desc(rest, pos)[w] == pos;
            assert(ins[w + 1] == pos);
        }
        assert(s[0] != pos) by {
            if s[0] == pos {
                assert(s.contains(pos));
            }
        }
        assert(ins[0] == s[0]);
        assert(ins.drop_first() =~= insert_desc(rest, pos));
        assert(remove_desc(ins, pos) == seq![s[0]] + remove_desc(insert_desc(rest, pos), pos));
        assert(seq![s[0]] + rest =~= s);
    } else {
        let ins = insert_desc(s, pos);
        assert(ins == seq![pos] + s);
        assert(ins[0] == pos);
        assert(remove_desc(ins, pos) == ins.drop_first());
        assert(ins.drop_first() =~= s);
    }
}

/// Insert `x` into a weakly descending sequence, keeping it weakly
/// descending.
#[verifier::loop_isolation(false)]
fn insert_sorted_desc(out: &mut Vec<i32>, x: i32)
    requires
        sorted_desc_weak(old(out)@),
    ensures
        final(out)@.len() == old(out)@.len() + 1,
        sorted_desc_weak(final(out)@),
        final(out)@.to_multiset() == old(out)@.to_multiset().insert(x),
{
    let ghost v0 = out@;
    let mut k: usize = 0;
    while k < out.len() && pos_rank_exec(out[k]) >= pos_rank_exec(x)
        invariant
            k <= out@.len(),
            out@ == v0,
            forall|i: int| 0 <= i < k ==> pos_rank(out@[i]) >= pos_rank(x),
        decreases out@.len() - k,
    {
        k = k + 1;
    }
    out.insert(k, x);
    proof {
        assert(out@ =~= v0.take(k as int) + seq![x] + v0.skip(k as int));
        vstd::seq_lib::to_multiset_insert(v0, k as int, x);
        assert forall|a: int, b: int| 0 <= a < b < out@.len() implies pos_rank(out@[a])
            >= pos_rank(out@[b]) by {
            if b < k {
            } else if b == k {
                assert(out@[a] == v0[a]);
            } else if a == k {
                assert(out@[b] == v0[b - 1]);
                assert(pos_rank(v0[k as int]) < pos_rank(x));
                assert(pos_rank(v0[b - 1]) <= pos_rank(v0[k as int]));
            } else if a < k {
                assert(out@[a] == v0[a] && out@[b] == v0[b - 1]);
            } else {
                assert(out@[a] == v0[a - 1] && out@[b] == v0[b - 1]);
            }
        }
    }
}

/// Every clipped position is a valid position that survives the clip.
pub proof fn lemma_clip_asc_elements(s: Seq<i32>, maxlen: usize)
    requires
        valid_entries(s),
    ensures
        forall|i: int|
            0 <= i < clip_asc(s, maxlen).len() ==> valid_pos(#[trigger] clip_asc(s, maxlen)[i])
                && keeps(clip_asc(s, maxlen)[i], maxlen),
    decreases s.len(),
{
    if s.len() > 0 {
        let rest = s.drop_first();
        assert(valid_entries(rest)) by {
            assert(forall|i: int| 0 <= i < rest.len() ==> rest[i] == s[i + 1]);
        }
        lemma_clip_asc_elements(rest, maxlen);
        if keeps(s.first(), maxlen) {
            assert(clip_asc(s, maxlen) == clip_asc(rest, maxlen) + seq![s.first()]);
            assert(valid_pos(s[0]));
        }
    }
}

/// Iterator totality: clipped to a keyword of length `maxlen >= 1`, a
/// well-formed position set yields exactly its entries below `maxlen` plus
/// one for `LASTCHAR` when present, each yielded value being an explicit
/// position below `maxlen` or `LASTCHAR` itself.
pub proof fn lemma_iterator_totality(s: Seq<i32>, maxlen: usize)
    requires
        sorted_desc(s),
        valid_entries(s),
        maxlen >= 1,
    ensures
        clip_asc(s, maxlen).len() == count_below(s, maxlen) + (if s.contains(LASTCHAR) {
            1int
        } else {
            0int
        }),
        forall|i: int|
            0 <= i < clip_asc(s, maxlen).len() ==> (#[trigger] clip_asc(s, maxlen)[i] == LASTCHAR
                || 0 <= clip_asc(s, maxlen)[i] < maxlen as int),
    decreases s.len(),
{
    if s.len() == 0 {
        assert(!s.contains(LASTCHAR));
    } else {
        let rest = s.drop_first();
        assert(sorted_desc(rest) && valid_entries(rest)) by {
            assert(forall|i: int| 0 <= i < rest.len() ==> rest[i] == s[i + 1]);
        }
        lemma_iterator_totality(rest, maxlen);
        let c = clip_asc(s, maxlen);
        let crest = clip_asc(rest, maxlen);
        if s[0] == LASTCHAR {
            assert(!rest.contains(LASTCHAR)) by {
                assert forall|i: int| 0 <= i < rest.len() implies rest[i] != LASTCHAR by {
                    assert(pos_rank(s[0]) > pos_rank(s[i + 1]));
                }
            }
            assert(s.contains(LASTCHAR)) by {
                assert(s[0] == LASTCHAR);
            }
            assert(keeps(s.first(), maxlen));
            assert(c == crest + seq![s[0]]);
            assert(count_below(s, maxlen) == count_below(rest, maxlen));
        } else {
            assert(s.contains(LASTCHAR) <==> rest.contains(LASTCHAR)) by {
                if rest.contains(LASTCHAR) {
                    let w = choose|w: int| 0 <= w < rest.len() && rest[w] == LASTCHAR;
                    assert(s[w + 1] == LASTCHAR);
                }
                if s.contains(LASTCHAR) {
                    let w = choose|w: int| 0 <= w < s.len() && s[w] == LASTCHAR;
                    assert(w >= 1);
                    assert(rest[w - 1] == LASTCHAR);
                }
            }
            if keeps(s.first(), maxlen) {
                assert(c == crest + seq![s[0]]);
                assert(count_below(s, maxlen) == 1 + count_below(rest, maxlen));
                assert(valid_pos(s[0]));
                assert(0 <= s[0] < maxlen as int);
            } else {
                assert(c == crest);
                assert(count_below(s, maxlen) == count_below(rest, maxlen));
            }
        }
    }
}

/// Decimal digits of `n`, most significant first.
pub open spec fn dec_digits(n: int) -> Seq<u8>
    decreases n,
{
    if n <= 9 {
        seq![(48 + if 0 <= n {
            n
        } else {
            0
        }) as u8]
    } else {
        dec_digits(n / 10) + seq![(48 + n % 10) as u8]
    }
}

/// Append the decimal rendering of `n`.
pub(crate) fn push_dec(out: &mut Vec<u8>, n: u32)
    ensures
        final(out)@ == old(out)@ + dec_digits(n as int),
        final(out)@.len() > old(out)@.len(),
    decreases n,
{
    if n <= 9 {
        out.push((48 + n) as u8);
        proof {
            assert(out@ =~= old(out)@ + dec_digits(n as int));
        }
    } else {
        push_dec(out, n / 10);
        out.push(48 + (n % 10) as u8);
        proof {
            assert(out@ =~= old(out)@ + dec_digits(n as int));
        }
    }
}

/// Relies on `String::from_utf8`: a vector of ASCII bytes is valid UTF-8 and
/// decodes to exactly those characters, one per byte.
#[verifier::external_body]
pub(crate) fn ascii_string(bytes: &Vec<u8>) -> (r: String)
    requires
        forall|i: int| 0 <= i < bytes@.len() ==> bytes@[i] < 128,
    ensures
        r@.len() == bytes@.len(),
        forall|i: int| 0 <= i < bytes@.len() ==> r@[i] == bytes@[i] as char,
{
    String::from_utf8(bytes.clone()).unwrap()
}

/// The explicit positions of a descending chain, smallest first.
pub open spec fn reals_asc(s: Seq<i32>) -> Seq<i32>
    decreases s.len(),
{
    if s.len() == 0 {
        Seq::empty()
    } else if s.first() == LASTCHAR {
        reals_asc(s.drop_first())
    } else {
        reals_asc(s.drop_first()) + seq![s.first()]
    }
}

/// Last index of the run of consecutive values starting at `i`.
pub open spec fn run_end(s: Seq<i32>, i: int) -> int
    decreases s.len() - i,
{
    if i < 0 || i + 1 >= s.len() {
        i
    } else if s[i + 1] == s[i] + 1 {
        run_end(s, i + 1)
    } else {
        i
    }
}

/// A run ends at or after where it starts, within the sequence.
proof fn lemma_run_end_bounds(s: Seq<i32>, i: int)
    requires
        0 <= i < s.len(),
    ensures
        i <= run_end(s, i) < s.len(),
    decreases s.len() - i,
{
    if i + 1 < s.len() && s[i + 1] == s[i] + 1 {
        lemma_run_end_bounds(s, i + 1);
    }
}

/// Comma-joined 1-based positions from index `i` on, with each run of
/// consecutive values collapsed to `first-last`.
pub open spec fn render_runs(s: Seq<i32>, i: int) -> Seq<u8>
    decreases s.len() - i,
    via render_runs_dec
{
    if i < 0 || i >= s.len() {
        Seq::empty()
    } else {
        let j = run_end(s, i);
        dec_digits(s[i] + 1) + (if j > i {
            seq![45u8] + dec_digits(s[j] + 1)
        } else {
            Seq::empty()
        }) + (if j + 1 < s.len() {
            seq![44u8] + render_runs(s, j + 1)
        } else {
            Seq::empty()
        })
    }
}

#[via_fn]
proof fn render_runs_dec(s: Seq<i32>, i: int) {
    if 0 <= i < s.len() {
        lemma_run_end_bounds(s, i);
    }
}

/// The diagnostic rendering of a position set: `*` in use-all mode, else
/// the 1-based explicit positions ascending and comma-joined, consecutive
/// runs collapsed to `a-b`, and `$` last when `LASTCHAR` is a member.
pub open spec fn render(s: Seq<i32>, useall: bool) -> Seq<u8> {
    if useall {
        seq![42u8]
    } else {
        let asc = reals_asc(s);
        render_runs(asc, 0) + (if s.contains(LASTCHAR) {
            (if asc.len() > 0 {
                seq![44u8]
            } else {
                Seq::empty()
            }) + seq![36u8]
        } else {
            Seq::empty()
        })
    }
}

/// Executable twin of [`pos_rank`].
pub fn pos_rank_exec(p: i32) -> (r: i32)
    ensures
        r as int == pos_rank(p),
{
    if p == LASTCHAR {
        MAX_KEY_POS
    } else {
        p
    }
}

/// Whether a stored value survives clipping to a keyword of length `maxlen`:
/// explicit positions at or beyond the length are skipped, and `LASTCHAR`
/// (which resolves to `maxlen - 1`) survives exactly when the keyword is
/// non-empty.
pub open spec fn keeps(p: i32, maxlen: usize) -> bool {
    if p == LASTCHAR {
        maxlen >= 1
    } else {
        (p as int) < (maxlen as int)
    }
}

/// Executable twin of [`keeps`].
pub fn keeps_exec(p: i32, maxlen: usize) -> (r: bool)
    ensures
        r == keeps(p, maxlen),
{
    if p == LASTCHAR {
        maxlen >= 1
    } else {
        p < 0 || (p as usize) < maxlen
    }
}

/// The entries of `s` that survive clipping to `maxlen`, in storage
/// (descending) order.
pub open spec fn clip_desc(s: Seq<i32>, maxlen: usize) -> Seq<i32>
    decreases s.len(),
{
    if s.len() == 0 {
        Seq::empty()
    } else if keeps(s.last(), maxlen) {
        clip_desc(s.drop_last(), maxlen) + seq![s.last()]
    } else {
        clip_desc(s.drop_last(), maxlen)
    }
}

/// The entries of `s` that survive clipping to `maxlen`, in ascending rank
/// order: explicit positions from smallest to largest, then `LASTCHAR`.
pub open spec fn clip_asc(s: Seq<i32>, maxlen: usize) -> Seq<i32>
    decreases s.len(),
{
    if s.len() == 0 {
        Seq::empty()
    } else if keeps(s.first(), maxlen) {
        clip_asc(s.drop_first(), maxlen) + seq![s.first()]
    } else {
        clip_asc(s.drop_first(), maxlen)
    }
}

/// Number of explicit entries of `s` below `maxlen`.
pub open spec fn count_below(s: Seq<i32>, maxlen: usize) -> int
    decreases s.len(),
{
    if s.len() == 0 {
        0
    } else {
        (if s.first() != LASTCHAR && (s.first() as int) < (maxlen as int) {
            1int
        } else {
            0int
        }) + count_below(s.drop_first(), maxlen)
    }
}

/// A single-pass forward cursor over a position set, clipped to a keyword
/// length.  Yields the clipped positions in ascending rank order (explicit
/// positions first, `LASTCHAR` last) and then `EOS`.
pub struct PositionIterator {
    /// The clipped positions, in yield order.
    pub seq: Vec<i32>,
    /// Index of the next position to yield.
    pub index: usize,
}

impl View for PositionIterator {
    type V = Seq<i32>;

    /// The positions not yet yielded, in yield order.
    open spec fn view(&self) -> Seq<i32> {
        self.seq@.skip(self.index as int)
    }
}

impl PositionIterator {
    /// The cursor never runs past its sequence.
    pub open spec fn inv(&self) -> bool {
        self.index <= self.seq@.len()
    }

    /// The next position, or `EOS` once the sequence is exhausted.
    pub fn next(&mut self) -> (r: i32)
        requires
            old(self).inv(),
        ensures
            final(self).inv(),
            old(self)@.len() > 0 ==> r == old(self)@[0] && final(self)@ == old(self)@.drop_first(),
            old(self)@.len() == 0 ==> r == EOS && final(self)@ == old(self)@,
    {
        if self.index < self.seq.len() {
            let r = self.seq[self.index];
            self.index = self.index + 1;
            proof {
                assert(self@ =~= old(self)@.drop_first());
            }
            r
        } else {
            EOS
        }
    }

    /// How many positions are still to come; callable before iteration
    /// starts, where it gives the total number of positions the iterator
    /// will yield.
    pub fn remaining(&self) -> (r: usize)
        requires
            self.inv(),
        ensures
            r == self@.len(),
    {
        self.seq.len() - self.index
    }
}

/// A single-pass reverse cursor over a position set, clipped to a keyword
/// length.  Yields the clipped positions in descending rank order
/// (`LASTCHAR` first when present) and then `EOS`.
pub struct PositionReverseIterator {
    /// The clipped positions, in yield order.
    pub seq: Vec<i32>,
    /// Index of the next position to yield.
    pub index: usize,
}

impl View for PositionReverseIterator {
    type V = Seq<i32>;

    /// The positions not yet yielded, in yield order.
    open spec fn view(&self) -> Seq<i32> {
        self.seq@.skip(self.index as int)
    }
}

impl PositionReverseIterator {
    /// The cursor never runs past its sequence.
    pub open spec fn inv(&self) -> bool {
        self.index <= self.seq@.len()
    }

    /// The next position, or `EOS` once the sequence is exhausted.
    pub fn next(&mut self) -> (r: i32)
        requires
            old(self).inv(),
        ensures
            final(self).inv(),
            old(self)@.len() > 0 ==> r == old(self)@[0] && final(self)@ == old(self)@.drop_first(),
            old(self)@.len() == 0 ==> r == EOS && final(self)@ == old(self)@,
    {
        if self.index < self.seq.len() {
            let r = self.seq[self.index];
            self.index = self.index + 1;
            proof {
                assert(self@ =~= old(self)@.drop_first());
            }
            r
        } else {
            EOS
        }
    }

    /// How many positions are still to come.
    pub fn remaining(&self) -> (r: usize)
        requires
            self.inv(),
        ensures
            r == self@.len(),
    {
        self.seq.len() - self.index
    }
}

} // verus!
