//! Keyword records and selected-character extraction.
//!
//! A keyword record carries one input entry; a keyword extension adds its
//! selected character set: the characters extracted at the current position
//! set's positions, optionally shifted by a per-position increment and
//! remapped through a case-unification table.

use vstd::prelude::*;

verus! {

use crate::positions::{clip_asc, keeps, valid_pos, Positions, LASTCHAR, EOS};
use crate::positions::lemma_clip_asc_elements;

/// One input entry: keyword text, trailing attribute text, and source line
/// number.  Immutable once read.
pub struct Keyword {
    /// The keyword text, as bytes.
    pub allchars: Vec<u8>,
    /// Trailing per-keyword attribute text, for generated comparison tables.
    pub rest: Vec<u8>,
    /// Originating line number, for diagnostics.
    pub lineno: u32,
}

impl Keyword {
    /// Build a keyword record.
    pub fn new(allchars: Vec<u8>, rest: Vec<u8>, lineno: u32) -> (r: Keyword)
        ensures
            r.allchars == allchars,
            r.rest == rest,
            r.lineno == lineno,
    {
        Keyword { allchars, rest, lineno }
    }
}

/// A keyword record plus its derived selected character set and a link to
/// another extension that produced an identical signature, if any.
pub struct KeywordExt {
    /// The underlying keyword record.
    pub keyword: Keyword,
    /// The selected character set; empty until an `init_selchars_*` call.
    pub selchars: Vec<u32>,
    /// Index (into the caller's arena of extensions) of the first extension
    /// seen with the same signature; assigned only by the hash-table pass.
    pub duplicate_link: Option<usize>,
}

/// The character one clipped position contributes: `LASTCHAR` resolves to
/// the final character; an explicit position reads its character, shifted by
/// the per-position increment when one is given; the result is remapped
/// through the unification table when one is given.
pub open spec fn sel_char(
    p: i32,
    chars: Seq<u8>,
    unify: Option<Seq<u32>>,
    inc: Option<Seq<u32>>,
) -> u32 {
    let base: int = if p == LASTCHAR {
        chars[chars.len() - 1] as int
    } else {
        chars[p as int] as int + (match inc {
            Some(t) => t[p as int] as int,
            None => 0,
        })
    };
    match unify {
        Some(u) => u[base],
        None => base as u32,
    }
}

/// The selected character set produced by a sequence of clipped positions.
pub open spec fn selchars_spec(
    positions: Seq<i32>,
    chars: Seq<u8>,
    unify: Option<Seq<u32>>,
    inc: Option<Seq<u32>>,
) -> Seq<u32> {
    positions.map_values(|p: i32| sel_char(p, chars, unify, inc))
}

/// The spec-level view of an optional table argument.
pub open spec fn table_view(t: Option<&Vec<u32>>) -> Option<Seq<u32>> {
    match t {
        Some(v) => Some(v@),
        None => None,
    }
}

/// The preconditions under which the tables cover every character the
/// extraction can compute: the increment table covers every keyword
/// position and cannot overflow a `u32`, and the unification table covers
/// every byte, shifted or not.
pub open spec fn tables_ok(
    chars: Seq<u8>,
    unify: Option<Seq<u32>>,
    inc: Option<Seq<u32>>,
) -> bool {
    &&& (inc matches Some(t) ==> t.len() >= chars.len() && forall|i: int|
        0 <= i < t.len() ==> #[trigger] t[i] <= u32::MAX - 255)
    &&& (unify matches Some(u) ==> u.len() >= 256 && (inc matches Some(t) ==> forall|i: int|
        0 <= i < chars.len() ==> chars[i] + #[trigger] t[i] < u.len()))
}

impl KeywordExt {
    /// Build an extension around a keyword record, with no selected
    /// characters yet and no duplicate link.
    pub fn new(keyword: Keyword) -> (r: KeywordExt)
        ensures
            r.keyword == keyword,
            r.selchars@ == Seq::<u32>::empty(),
            r.duplicate_link.is_none(),
    {
        let r = KeywordExt { keyword, selchars: Vec::new(), duplicate_link: None };
        proof {
            assert(r.selchars@ =~= Seq::<u32>::empty());
        }
        r
    }

    /// Compute the selected character set for the given position set: walk
    /// the positions clipped to the keyword length in iteration order,
    /// resolving `LASTCHAR` to the final character, adding the per-position
    /// increment and remapping through the unification table where given.
    #[verifier::loop_isolation(false)]
    pub fn init_selchars_low(
        &mut self,
        positions: &Positions,
        alpha_unify: Option<&Vec<u32>>,
        alpha_inc: Option<&Vec<u32>>,
    )
        requires
            positions.wf(),
            tables_ok(
                old(self).keyword.allchars@,
                table_view(alpha_unify),
                table_view(alpha_inc),
            ),
        ensures
            final(self).keyword == old(self).keyword,
            final(self).duplicate_link == old(self).duplicate_link,
            final(self).selchars@ == selchars_spec(
                clip_asc(positions@, old(self).keyword.allchars@.len() as usize),
                old(self).keyword.allchars@,
                table_view(alpha_unify),
                table_view(alpha_inc),
            ),
    {
        let kwlen: usize = self.keyword.allchars.len();
        proof {
            lemma_clip_asc_elements(positions@, kwlen);
        }
        let mut iter = positions.iterator(kwlen);
        let ghost full = iter@;
        let ghost chars = self.keyword.allchars@;
        let ghost unify = table_view(alpha_unify);
        let ghost inc = table_view(alpha_inc);
        let mut key_set: Vec<u32> = Vec::with_capacity(iter.remaining());
        let mut pos: i32 = iter.next();
        while pos != EOS
            invariant
                self == old(self),
                key_set@.len() <= full.len(),
                key_set@ == selchars_spec(full.take(key_set@.len() as int), chars, unify, inc),
                key_set@.len() < full.len() ==> pos == full[key_set@.len() as int] && iter@
                    == full.skip(key_set@.len() as int + 1),
                key_set@.len() == full.len() ==> pos == EOS,
                pos == EOS ==> key_set@.len() == full.len(),
                iter.inv(),
            decreases full.len() - key_set@.len(),
        {
            let ghost d = key_set@.len() as int;
            proof {
                assert(valid_pos(full[d]) && keeps(full[d], kwlen));
            }
            let base: u32;
            if pos == LASTCHAR {
                base = self.keyword.allchars[kwlen - 1] as u32;
            } else {
                let idx: usize = pos as usize;
                let c: u32 = self.keyword.allchars[idx] as u32;
                base = match alpha_inc {
                    Some(t) => c + t[idx],
                    None => c,
                };
            }
            let c: u32 = match alpha_unify {
                Some(u) => u[base as usize],
                None => base,
            };
            proof {
                assert(c == sel_char(full[d], chars, unify, inc));
            }
            key_set.push(c);
            proof {
                assert(key_set@ =~= selchars_spec(full.take(d + 1), chars, unify, inc)) by {
                    assert(full.take(d + 1).drop_last() =~= full.take(d));
                    assert(key_set@.drop_last() == selchars_spec(full.take(d), chars, unify, inc));
                    assert(full.take(d + 1)[d] == full[d]);
                }
            }
            pos = iter.next();
        }
        proof {
            assert(full.take(full.len() as int) =~= full);
        }
        self.selchars = key_set;
    }

    /// Selected characters with ordered (tuple) semantics: two keywords are
    /// signature-equal only when the same characters stand in the same
    /// iteration order.  No per-position increment is applied.
    pub fn init_selchars_tuple(&mut self, positions: &Positions, alpha_unify: Option<&Vec<u32>>)
        requires
            positions.wf(),
            tables_ok(old(self).keyword.allchars@, table_view(alpha_unify), None),
        ensures
            final(self).keyword == old(self).keyword,
            final(self).duplicate_link == old(self).duplicate_link,
            final(self).selchars@ == selchars_spec(
                clip_asc(positions@, old(self).keyword.allchars@.len() as usize),
                old(self).keyword.allchars@,
                table_view(alpha_unify),
                None,
            ),
    {
        self.init_selchars_low(positions, alpha_unify, None);
    }

    /// Selected characters with multiset semantics: the extracted characters
    /// are sorted ascending in place, so two keywords are signature-equal
    /// when they select the same multiset of characters in any order.
    pub fn init_selchars_multiset(
        &mut self,
        positions: &Positions,
        alpha_unify: Option<&Vec<u32>>,
        alpha_inc: Option<&Vec<u32>>,
    )
        requires
            positions.wf(),
            tables_ok(
                old(self).keyword.allchars@,
                table_view(alpha_unify),
                table_view(alpha_inc),
            ),
        ensures
            final(self).keyword == old(self).keyword,
            final(self).duplicate_link == old(self).duplicate_link,
            final(self).selchars@.to_multiset() == selchars_spec(
                clip_asc(positions@, old(self).keyword.allchars@.len() as usize),
                old(self).keyword.allchars@,
                table_view(alpha_unify),
                table_view(alpha_inc),
            ).to_multiset(),
            sorted_asc(final(self).selchars@),
    {
        self.init_selchars_low(positions, alpha_unify, alpha_inc);
        sort_char_set(&mut self.selchars);
    }

    /// Release the selected character set; safe to call at any time and
    /// leaves the keyword itself untouched.
    pub fn delete_selchars(&mut self)
        ensures
            final(self).keyword == old(self).keyword,
            final(self).duplicate_link == old(self).duplicate_link,
            final(self).selchars@ == Seq::<u32>::empty(),
    {
        self.selchars = Vec::new();
        proof {
            assert(self.selchars@ =~= Seq::<u32>::empty());
        }
    }
}

/// Ascending order, duplicates allowed.
pub open spec fn sorted_asc(s: Seq<u32>) -> bool {
    forall|i: int, j: int| 0 <= i < j < s.len() ==> s[i] <= s[j]
}

/// Insert `x` into an ascending sequence, keeping it ascending.
#[verifier::loop_isolation(false)]
fn insert_sorted_asc(out: &mut Vec<u32>, x: u32)
    requires
        sorted_asc(old(out)@),
    ensures
        final(out)@.len() == old(out)@.len() + 1,
        sorted_asc(final(out)@),
        final(out)@.to_multiset() == old(out)@.to_multiset().insert(x),
{
    let ghost v0 = out@;
    let mut k: usize = 0;
    while k < out.len() && out[k] <= x
        invariant
            k <= out@.len(),
            out@ == v0,
            forall|i: int| 0 <= i < k ==> out@[i] <= x,
        decreases out@.len() - k,
    {
        k = k + 1;
    }
    out.insert(k, x);
    proof {
        vstd::seq_lib::to_multiset_insert(v0, k as int, x);
        assert forall|a: int, b: int| 0 <= a < b < out@.len() implies out@[a] <= out@[b] by {
            if b < k {
            } else if b == k {
                assert(out@[a] == v0[a]);
            } else if a == k {
                assert(out@[b] == v0[b - 1]);
                assert(v0[k as int] > x);
                assert(v0[b - 1] >= v0[k as int]);
            } else if a < k {
                assert(out@[a] == v0[a] && out@[b] == v0[b - 1]);
            } else {
                assert(out@[a] == v0[a - 1] && out@[b] == v0[b - 1]);
            }
        }
    }
}

/// Sort a selected character set ascending, in place, by insertion sort;
/// keeps exactly the same characters (as a multiset).
#[verifier::loop_isolation(false)]
pub fn sort_char_set(base: &mut Vec<u32>)
    ensures
        final(base)@.len() == old(base)@.len(),
        sorted_asc(final(base)@),
        final(base)@.to_multiset() == old(base)@.to_multiset(),
{
    let ghost v0 = base@;
    let n: usize = base.len();
    let mut sorted: Vec<u32> = Vec::new();
    proof {
        assert(sorted@ =~= v0.take(0));
    }
    let mut m: usize = 0;
    while m < n
        invariant
            m <= n,
            base@ == v0,
            sorted@.len() == m,
            sorted_asc(sorted@),
            sorted@.to_multiset() == v0.take(m as int).to_multiset(),
        decreases n - m,
    {
        let ghost prefix = v0.take(m as int);
        let x: u32 = base[m];
        proof {
            assert(v0.take(m as int + 1) =~= prefix.push(x));
            prefix.to_multiset_ensures();
        }
        insert_sorted_asc(&mut sorted, x);
        m = m + 1;
    }
    proof {
        assert(v0.take(n as int) =~= v0);
        sorted@.to_multiset_ensures();
        v0.to_multiset_ensures();
    }
    *base = sorted;
}

} // verus!
