//! Position-specification parser.
//!
//! Reads a textual key-position specification such as `$,1,2,4,6-10` one
//! character at a time, yielding one position per call: `$` yields the
//! end-of-word marker, a decimal run yields that number, a range `a-b`
//! yields `a` through `b` in turn, and any syntax or bounds violation yields
//! the caller's error sentinel.  The parser itself never aborts.

use vstd::prelude::*;

verus! {

/// One value the parser can yield before its input ends: an explicit
/// position, or the end-of-word marker written `$`.
pub ghost enum SpecTok {
    /// A position value.
    Pos(int),
    /// The `$` marker.
    EndWord,
}

/// ASCII decimal digit.
pub open spec fn is_digit(b: u8) -> bool {
    48 <= b <= 57
}

/// Executable twin of [`is_digit`].
pub fn is_digit_exec(b: u8) -> (r: bool)
    ensures
        r == is_digit(b),
{
    48 <= b && b <= 57
}

/// First index at or after `i` that does not hold a digit.
pub open spec fn digit_run_end(s: Seq<u8>, i: int) -> int
    decreases s.len() - i,
{
    if i < 0 || i >= s.len() {
        i
    } else if !is_digit(s[i]) {
        i
    } else {
        digit_run_end(s, i + 1)
    }
}

/// The run of digits ends at or after where it starts, within the input.
proof fn lemma_digit_run_end_bounds(s: Seq<u8>, i: int)
    requires
        0 <= i <= s.len(),
    ensures
        i <= digit_run_end(s, i) <= s.len(),
    decreases s.len() - i,
{
    if i < s.len() && is_digit(s[i]) {
        lemma_digit_run_end_bounds(s, i + 1);
    }
}

/// Value of the decimal digits `s[i..j)`, read left to right.
pub open spec fn digit_run_value(s: Seq<u8>, i: int, j: int) -> int
    decreases j - i,
{
    if j <= i {
        0
    } else {
        digit_run_value(s, i, j - 1) * 10 + (s[j - 1] - 48)
    }
}

/// A digit run's value is non-negative.
proof fn lemma_digit_run_value_nonneg(s: Seq<u8>, i: int, j: int)
    requires
        forall|m: int| i <= m < j ==> 0 <= #[trigger] s[m] - 48 <= 9,
    ensures
        digit_run_value(s, i, j) >= 0,
    decreases j - i,
{
    if j > i {
        lemma_digit_run_value_nonneg(s, i, j - 1);
    }
}

/// The positions `a` through `b`, inclusive, in order.
pub open spec fn range_tokens(a: int, b: int) -> Seq<SpecTok>
    decreases b - a + 1,
{
    if a > b {
        Seq::empty()
    } else {
        seq![SpecTok::Pos(a)] + range_tokens(a + 1, b)
    }
}

/// The tokens a specification yields from index `i` on, and whether the
/// input ends in a syntax or bounds error instead of running out: commas
/// separate; `$` is the end-of-word marker; a decimal run is a position,
/// checked against `[low, high]`; `a-b` is the inclusive range `a..=b`,
/// its bounds checked the same way with `b > a` demanded; any other
/// character is an error.
pub open spec fn spec_tokens_from(s: Seq<u8>, low: int, high: int, i: int) -> (Seq<SpecTok>, bool)
    decreases s.len() - i,
    via spec_tokens_from_dec
{
    if i < 0 || i >= s.len() {
        (Seq::empty(), false)
    } else if s[i] == 44 {
        spec_tokens_from(s, low, high, i + 1)
    } else if s[i] == 36 {
        let (rest, err) = spec_tokens_from(s, low, high, i + 1);
        (seq![SpecTok::EndWord] + rest, err)
    } else if is_digit(s[i]) {
        let j = digit_run_end(s, i);
        let n = digit_run_value(s, i, j);
        if j < s.len() && s[j] == 45 {
            let j2 = digit_run_end(s, j + 1);
            let m = digit_run_value(s, j + 1, j2);
            if m > n && m <= high && n >= low && n <= high {
                let (rest, err) = spec_tokens_from(s, low, high, j2);
                (range_tokens(n, m) + rest, err)
            } else {
                (Seq::empty(), true)
            }
        } else if n >= low && n <= high {
            let (rest, err) = spec_tokens_from(s, low, high, j);
            (seq![SpecTok::Pos(n)] + rest, err)
        } else {
            (Seq::empty(), true)
        }
    } else {
        (Seq::empty(), true)
    }
}

#[via_fn]
proof fn spec_tokens_from_dec(s: Seq<u8>, low: int, high: int, i: int) {
    if 0 <= i < s.len() {
        if is_digit(s[i]) {
            lemma_digit_run_end_bounds(s, i);
            let j = digit_run_end(s, i);
            assert(j >= i + 1) by {
                assert(digit_run_end(s, i) == digit_run_end(s, i + 1));
                lemma_digit_run_end_bounds(s, i + 1);
            }
            if j < s.len() && s[j] == 45 {
                lemma_digit_run_end_bounds(s, j + 1);
            }
        }
    }
}

/// The position-specification parser.  The three sentinel values — the
/// end-of-word marker, the error value, and the end-of-input marker — are
/// supplied by the caller and must be mutually distinct and outside the
/// position bounds `[low_bound, high_bound]`.
#[allow(non_camel_case_types)]
pub struct PositionStringParser {
    /// The specification text, as bytes.
    pub s: Vec<u8>,
    /// Read position within `s`.
    pub idx: usize,
    /// Smallest allowed position value, inclusive.
    pub low_bound: i32,
    /// Greatest allowed position value, inclusive.
    pub high_bound: i32,
    /// Value yielded for `$`.
    pub end_word_marker: i32,
    /// Value yielded on erroneous input.
    pub error_value: i32,
    /// Value yielded once the input is exhausted.
    pub end_marker: i32,
    /// True while an `a-b` range is being enumerated.
    pub in_range: bool,
    /// Inclusive upper bound of the range being enumerated.
    pub range_upper: i32,
    /// Last value yielded from the range.
    pub range_curr: i32,
}

impl PositionStringParser {
    /// Positions the enumerated range still owes.
    pub open spec fn pending(&self) -> Seq<SpecTok> {
        if self.in_range {
            range_tokens(self.range_curr as int + 1, self.range_upper as int)
        } else {
            Seq::empty()
        }
    }

    /// All values future calls will yield before a sentinel.
    pub open spec fn toks(&self) -> Seq<SpecTok> {
        self.pending() + spec_tokens_from(
            self.s@,
            self.low_bound as int,
            self.high_bound as int,
            self.idx as int,
        ).0
    }

    /// Whether the input ends in an error rather than running out.
    pub open spec fn ends_in_error(&self) -> bool {
        spec_tokens_from(
            self.s@,
            self.low_bound as int,
            self.high_bound as int,
            self.idx as int,
        ).1
    }

    /// Well-formed parser: sane bounds, mutually distinct sentinels outside
    /// the bounds, read position within the input, and a consistent range
    /// state.
    pub open spec fn wf(&self) -> bool {
        &&& self.idx <= self.s@.len()
        &&& 0 <= self.low_bound <= self.high_bound < i32::MAX
        &&& !(self.low_bound <= self.end_word_marker <= self.high_bound)
        &&& !(self.low_bound <= self.error_value <= self.high_bound)
        &&& !(self.low_bound <= self.end_marker <= self.high_bound)
        &&& self.end_word_marker != self.error_value
        &&& self.end_word_marker != self.end_marker
        &&& self.error_value != self.end_marker
        &&& self.in_range ==> self.low_bound <= self.range_curr < self.range_upper
            <= self.high_bound
    }

    /// The fields that never change after construction.
    pub open spec fn same_config(&self, other: &Self) -> bool {
        &&& self.s == other.s
        &&& self.low_bound == other.low_bound
        &&& self.high_bound == other.high_bound
        &&& self.end_word_marker == other.end_word_marker
        &&& self.error_value == other.error_value
        &&& self.end_marker == other.end_marker
    }

    /// A parser over `s` with the given bounds and sentinels, ready to
    /// yield the whole specification.
    pub fn new(
        s: Vec<u8>,
        low_bound: i32,
        high_bound: i32,
        end_word_marker: i32,
        error_value: i32,
        end_marker: i32,
    ) -> (r: PositionStringParser)
        requires
            0 <= low_bound <= high_bound < i32::MAX,
            !(low_bound <= end_word_marker <= high_bound),
            !(low_bound <= error_value <= high_bound),
            !(low_bound <= end_marker <= high_bound),
            end_word_marker != error_value,
            end_word_marker != end_marker,
            error_value != end_marker,
        ensures
            r.wf(),
            r.s == s,
            r.low_bound == low_bound,
            r.high_bound == high_bound,
            r.end_word_marker == end_word_marker,
            r.error_value == error_value,
            r.end_marker == end_marker,
            r.toks() == spec_tokens_from(s@, low_bound as int, high_bound as int, 0).0,
            r.ends_in_error() == spec_tokens_from(s@, low_bound as int, high_bound as int, 0).1,
    {
        let r = PositionStringParser {
            s,
            idx: 0,
            low_bound,
            high_bound,
            end_word_marker,
            error_value,
            end_marker,
            in_range: false,
            range_upper: 0,
            range_curr: 0,
        };
        proof {
            assert(r.toks() =~= spec_tokens_from(
                r.s@,
                low_bound as int,
                high_bound as int,
                0,
            ).0);
        }
        r
    }
}

/// Read a decimal run starting at `start`, returning where it ends and its
/// value, saturated at `cap` (which callers pick just above the greatest
/// value of interest, so every comparison below `cap` is exact).
#[verifier::loop_isolation(false)]
fn scan_number(s: &Vec<u8>, start: usize, cap: i32) -> (r: (usize, i32))
    requires
        start <= s@.len(),
        cap >= 0,
    ensures
        r.0 as int == digit_run_end(s@, start as int),
        start <= r.0 <= s@.len(),
        digit_run_value(s@, start as int, r.0 as int) >= 0,
        r.1 as int == if digit_run_value(s@, start as int, r.0 as int) <= cap as int {
            digit_run_value(s@, start as int, r.0 as int)
        } else {
            cap as int
        },
{
    let mut j: usize = start;
    let mut n: i32 = 0;
    while j < s.len() && is_digit_exec(s[j])
        invariant
            start <= j <= s@.len(),
            digit_run_end(s@, start as int) == digit_run_end(s@, j as int),
            digit_run_value(s@, start as int, j as int) >= 0,
            0 <= n <= cap,
            n as int == if digit_run_value(s@, start as int, j as int) <= cap as int {
                digit_run_value(s@, start as int, j as int)
            } else {
                cap as int
            },
        decreases s@.len() - j,
    {
        let d: i32 = (s[j] - 48) as i32;
        let v: i64 = (n as i64) * 10 + (d as i64);
        proof {
            assert(digit_run_end(s@, j as int) == digit_run_end(s@, j as int + 1));
            assert(digit_run_value(s@, start as int, j as int + 1) == digit_run_value(
                s@,
                start as int,
                j as int,
            ) * 10 + (s@[j as int] - 48));
        }
        if v > cap as i64 {
            n = cap;
        } else {
            n = v as i32;
        }
        j = j + 1;
    }
    (j, n)
}

impl PositionStringParser {
    /// Yield the next position from the specification, or a sentinel: the
    /// end-of-word marker for `$`, the error value on bad syntax or bounds
    /// (leaving the parser stuck on the error), and the end marker once the
    /// input is exhausted.
    #[allow(non_snake_case)]
    #[verifier::loop_isolation(false)]
    pub fn nextPosition(&mut self) -> (r: i32)
        requires
            old(self).wf(),
        ensures
            final(self).wf(),
            final(self).same_config(old(self)),
            old(self).toks().len() > 0 ==> {
                &&& final(self).toks() =~= old(self).toks().drop_first()
                &&& final(self).ends_in_error() == old(self).ends_in_error()
                &&& (old(self).toks()[0] matches SpecTok::Pos(n) ==> r as int == n && old(
                    self,
                ).low_bound <= r <= old(self).high_bound)
                &&& (old(self).toks()[0] is EndWord ==> r == old(self).end_word_marker)
                &&& r != old(self).end_marker && r != old(self).error_value
            },
            old(self).toks().len() == 0 ==> {
                &&& final(self).toks() =~= old(self).toks()
                &&& final(self).ends_in_error() == old(self).ends_in_error()
                &&& r == if old(self).ends_in_error() {
                    old(self).error_value
                } else {
                    old(self).end_marker
                }
            },
    {
        let ghost lb = self.low_bound as int;
        let ghost hb = self.high_bound as int;
        if self.in_range {
            proof {
                assert(range_tokens(self.range_curr as int + 1, self.range_upper as int)
                    =~= seq![SpecTok::Pos(self.range_curr as int + 1)] + range_tokens(
                    self.range_curr as int + 2,
                    self.range_upper as int,
                ));
            }
            self.range_curr = self.range_curr + 1;
            if self.range_curr >= self.range_upper {
                self.in_range = false;
            }
            proof {
                assert(self.toks() =~= old(self).toks().drop_first());
            }
            return self.range_curr;
        }
        while self.idx < self.s.len() && self.s[self.idx] == 44
            invariant
                self.idx <= self.s@.len(),
                !self.in_range,
                self.same_config(old(self)),
                self.low_bound == old(self).low_bound,
                self.high_bound == old(self).high_bound,
                spec_tokens_from(self.s@, lb, hb, self.idx as int) == spec_tokens_from(
                    self.s@,
                    lb,
                    hb,
                    old(self).idx as int,
                ),
            decreases self.s@.len() - self.idx,
        {
            self.idx = self.idx + 1;
        }
        if self.idx >= self.s.len() {
            proof {
                assert(self.toks() =~= Seq::<SpecTok>::empty());
            }
            return self.end_marker;
        }
        let c: u8 = self.s[self.idx];
        if c == 36 {
            let ghost pre = *self;
            self.idx = self.idx + 1;
            proof {
                assert(old(self).toks() =~= seq![SpecTok::EndWord] + spec_tokens_from(
                    self.s@,
                    lb,
                    hb,
                    self.idx as int,
                ).0);
                assert(self.toks() =~= old(self).toks().drop_first());
            }
            return self.end_word_marker;
        }
        if is_digit_exec(c) {
            let cap: i32 = self.high_bound + 1;
            let start: usize = self.idx;
            let (j, n) = scan_number(&self.s, start, cap);
            let ghost nv = digit_run_value(self.s@, start as int, j as int);
            proof {
                assert((n <= self.high_bound) == (nv <= hb));
                assert((n >= self.low_bound) == (nv >= lb));
                assert(nv <= hb ==> n as int == nv);
            }
            if j < self.s.len() && self.s[j] == 45 {
                let (j2, m) = scan_number(&self.s, j + 1, cap);
                let ghost mv = digit_run_value(self.s@, j as int + 1, j2 as int);
                proof {
                    assert((m <= self.high_bound) == (mv <= hb));
                    assert(mv <= hb ==> m as int == mv);
                }
                if m > n && m <= self.high_bound && n >= self.low_bound && n <= self.high_bound {
                    proof {
                        assert(mv > nv && mv <= hb && nv >= lb && nv <= hb);
                        assert(old(self).toks() =~= range_tokens(nv, mv) + spec_tokens_from(
                            self.s@,
                            lb,
                            hb,
                            j2 as int,
                        ).0);
                        assert(range_tokens(nv, mv) =~= seq![SpecTok::Pos(nv)] + range_tokens(
                            nv + 1,
                            mv,
                        ));
                    }
                    self.idx = j2;
                    self.in_range = true;
                    self.range_upper = m;
                    self.range_curr = n;
                    proof {
                        assert(self.toks() =~= old(self).toks().drop_first());
                    }
                    return n;
                } else {
                    proof {
                        assert(!(mv > nv && mv <= hb && nv >= lb && nv <= hb));
                        assert(old(self).toks() =~= Seq::<SpecTok>::empty());
                        assert(old(self).ends_in_error());
                    }
                    return self.error_value;
                }
            } else if n >= self.low_bound && n <= self.high_bound {
                proof {
                    assert(nv >= lb && nv <= hb);
                    assert(old(self).toks() =~= seq![SpecTok::Pos(nv)] + spec_tokens_from(
                        self.s@,
                        lb,
                        hb,
                        j as int,
                    ).0);
                }
                self.idx = j;
                proof {
                    assert(self.toks() =~= old(self).toks().drop_first());
                }
                return n;
            } else {
                proof {
                    assert(!(nv >= lb && nv <= hb));
                    assert(old(self).toks() =~= Seq::<SpecTok>::empty());
                    assert(old(self).ends_in_error());
                }
                return self.error_value;
            }
        }
        proof {
            assert(old(self).toks() =~= Seq::<SpecTok>::empty());
            assert(old(self).ends_in_error());
        }
        self.error_value
    }
}

} // verus!
