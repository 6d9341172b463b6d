//! Rolling the dice of a specification and totalling the dice that count.

use vstd::prelude::*;
use rand::Rng;
use rayon::slice::ParallelSliceMut;
use crate::rollspec::RollSpec;

verus! {

/// The outcome of a roll: every die, in ascending order, and the total.
#[derive(Clone, Debug)]
pub struct Roll {
    pub rolls: Vec<i64>,
    pub sum: i64,
}

/// Why a specification could not be rolled.
#[derive(Clone, Copy, Debug, PartialEq, Eq, Structural)]
pub enum RollError {
    /// The die size is below one, or a keep or drop count exceeds the number
    /// of dice.
    Range,
    /// The total does not fit an `i64`.
    Overflow,
}

impl RollSpec {
    /// The die size is at least one and no keep or drop count exceeds the
    /// number of dice.
    pub open spec fn is_rollable(self) -> bool {
        &&& self.size >= 1
        &&& self.keep_high <= self.num
        &&& self.keep_low <= self.num
        &&& self.drop_low <= self.num
        &&& self.drop_high <= self.num
    }

    /// The indices `lo..hi` of the sorted dice that count. The first count
    /// that is not zero decides, in the order keep highest, drop lowest,
    /// drop highest, keep lowest.
    pub open spec fn kept(self) -> (int, int) {
        let n = self.num as int;
        if self.keep_high != 0 {
            (n - self.keep_high, n)
        } else if self.drop_low != 0 {
            (self.drop_low as int, n)
        } else if self.drop_high != 0 {
            (0, n - self.drop_high)
        } else if self.keep_low != 0 {
            (0, self.keep_low as int)
        } else {
            (0, n)
        }
    }

    /// The total of the sorted dice `sorted`: the dice that count, plus the
    /// modifier.
    pub open spec fn total(self, sorted: Seq<i64>) -> int {
        seq_sum(sorted.subrange(self.kept().0, self.kept().1)) + self.modifier
    }
}

pub open spec fn seq_sum(s: Seq<i64>) -> int
    decreases s.len(),
{
    if s.len() == 0 {
        0
    } else {
        seq_sum(s.drop_last()) + s.last()
    }
}

pub open spec fn abs(i: int) -> int {
    if i < 0 {
        -i
    } else {
        i
    }
}

proof fn lemma_sum_bounds(s: Seq<i64>, size: int)
    requires
        forall|i: int| 0 <= i < s.len() ==> 1 <= #[trigger] s[i] <= size,
    ensures
        0 <= seq_sum(s) <= s.len() * size,
    decreases s.len(),
{
    if s.len() > 0 {
        let p = s.drop_last();
        assert forall|i: int| 0 <= i < p.len() implies 1 <= #[trigger] p[i] <= size by {
            assert(p[i] == s[i]);
        }
        lemma_sum_bounds(p, size);
        assert(s.len() * size == p.len() * size + size) by (nonlinear_arith)
            requires s.len() == p.len() + 1;
    }
}

/// Dice of `1..=size` give a total between the modifier and
/// `num * size` plus the modifier.
proof fn lemma_total_bounds(r: RollSpec, t: Seq<i64>)
    requires
        r.is_rollable(),
        t.len() == r.num,
        forall|i: int| 0 <= i < t.len() ==> 1 <= #[trigger] t[i] <= r.size,
    ensures
        r.modifier <= r.total(t) <= r.num * r.size + r.modifier,
{
    let (lo, hi) = r.kept();
    let k = t.subrange(lo, hi);
    assert forall|i: int| 0 <= i < k.len() implies 1 <= #[trigger] k[i] <= r.size by {
        assert(k[i] == t[lo + i]);
    }
    lemma_sum_bounds(k, r.size as int);
    assert(k.len() * r.size <= r.num * r.size) by (nonlinear_arith)
        requires k.len() <= r.num, r.size >= 1;
}

pub open spec fn is_ascending(s: Seq<i64>) -> bool {
    forall|i: int, j: int| 0 <= i <= j < s.len() ==> s[i] <= s[j]
}

/// Relies on rand's `Rng::random_range` over `1..=size` on the thread's
/// generator: a value in the range, which it panics on only when empty.
#[verifier::external_body]
fn roll_die(size: u64) -> (r: u64)
    requires
        size >= 1,
    ensures
        1 <= r <= size,
{
    rand::rng().random_range(1..=size)
}

/// Relies on rayon's `ParallelSliceMut::par_sort`: the same values, in
/// ascending order.
#[verifier::external_body]
fn sort_ascending(v: &mut Vec<i64>)
    ensures
        final(v)@.len() == old(v)@.len(),
        final(v)@.to_multiset() == old(v)@.to_multiset(),
        is_ascending(final(v)@),
{
    v.par_sort();
}


impl RollSpec {
    /// The total of the sorted dice `sorted`, if it fits an `i64`.
    fn sum_kept(&self, sorted: &Vec<i64>) -> (r: Option<i64>)
        requires
            self.is_rollable(),
            sorted@.len() == self.num,
        ensures
            match r {
                Some(t) => t == self.total(sorted@),
                None => !(i64::MIN <= self.total(sorted@) <= i64::MAX),
            },
    {
        let n = self.num;
        let (lo, hi) = if self.keep_high != 0 {
            (n - self.keep_high, n)
        } else if self.drop_low != 0 {
            (self.drop_low, n)
        } else if self.drop_high != 0 {
            (0, n - self.drop_high)
        } else if self.keep_low != 0 {
            (0, self.keep_low)
        } else {
            (0, n)
        };
        assert(usize::MAX <= u64::MAX);
        let mut acc: i128 = 0;
        let mut i = lo;
        while i < hi
            invariant
                lo <= i <= hi <= sorted@.len(),
                (lo as int, hi as int) == self.kept(),
                acc == seq_sum(sorted@.subrange(lo as int, i as int)),
                -(i - lo) * 0x8000_0000_0000_0000 <= acc <= (i - lo) * 0x8000_0000_0000_0000,
            decreases hi - i,
        {
            assert(sorted@.subrange(lo as int, i + 1).drop_last() =~= sorted@.subrange(lo as int, i as int));
            acc = acc + sorted[i] as i128;
            i = i + 1;
        }
        let t = acc + self.modifier as i128;
        if t < i64::MIN as i128 || t > i64::MAX as i128 {
            None
        } else {
            Some(t as i64)
        }
    }

    /// Totals the dice `rolls` of this specification, given in any order.
    ///
    /// Refused with `RollError::Range` when the specification cannot be
    /// rolled; otherwise the dice come back in ascending order with the
    /// total of those that count, unless it does not fit an `i64`.
    pub fn tally(&self, rolls: Vec<i64>) -> (r: Result<Roll, RollError>)
        requires
            rolls@.len() == self.num,
        ensures
            !self.is_rollable() ==> r == Err::<Roll, RollError>(RollError::Range),
            self.is_rollable() ==> match r {
                Ok(roll) => {
                    &&& roll.rolls@.to_multiset() == rolls@.to_multiset()
                    &&& is_ascending(roll.rolls@)
                    &&& roll.sum == self.total(roll.rolls@)
                },
                Err(e) => {
                    &&& e == RollError::Overflow
                    &&& exists|t: Seq<i64>|
                        {
                            &&& t.to_multiset() == rolls@.to_multiset()
                            &&& is_ascending(t)
                            &&& !(i64::MIN <= #[trigger] self.total(t) <= i64::MAX)
                        }
                },
            },
    {
        if !(self.size >= 1 && self.keep_high <= self.num && self.keep_low <= self.num
            && self.drop_low <= self.num && self.drop_high <= self.num) {
            return Err(RollError::Range);
        }
        let mut sorted = rolls;
        sort_ascending(&mut sorted);
        match self.sum_kept(&sorted) {
            Some(sum) => Ok(Roll { rolls: sorted, sum }),
            None => Err(RollError::Overflow),
        }
    }

    /// Rolls `num` dice of `size` sides and totals them as `tally` does.
    pub fn roll(&self) -> (r: Result<Roll, RollError>)
        ensures
            !self.is_rollable() ==> r == Err::<Roll, RollError>(RollError::Range),
            self.is_rollable() && self.num * self.size + abs(self.modifier as int) <= i64::MAX
                ==> r is Ok,
            self.is_rollable() ==> match r {
                Ok(roll) => {
                    &&& roll.rolls@.len() == self.num
                    &&& is_ascending(roll.rolls@)
                    &&& forall|i: int| 0 <= i < roll.rolls@.len() ==> 1 <= #[trigger] roll.rolls@[i] <= self.size
                    &&& roll.sum == self.total(roll.rolls@)
                },
                Err(e) => {
                    &&& e == RollError::Overflow
                    &&& exists|t: Seq<i64>|
                        {
                            &&& t.len() == self.num
                            &&& is_ascending(t)
                            &&& forall|i: int| 0 <= i < t.len() ==> 1 <= #[trigger] t[i] <= self.size
                            &&& !(i64::MIN <= #[trigger] self.total(t) <= i64::MAX)
                        }
                },
            },
    {
        if !(self.size >= 1 && self.keep_high <= self.num && self.keep_low <= self.num
            && self.drop_low <= self.num && self.drop_high <= self.num) {
            return Err(RollError::Range);
        }
        let mut rolls: Vec<i64> = Vec::with_capacity(self.num);
        let mut i: usize = 0;
        while i < self.num
            invariant
                self.size >= 1,
                i <= self.num,
                rolls@.len() == i,
                forall|j: int| 0 <= j < i ==> 1 <= #[trigger] rolls@[j] <= self.size,
            decreases self.num - i,
        {
            let v = roll_die(self.size as u64);
            rolls.push(v as i64);
            i = i + 1;
        }
        let ghost rolled = rolls@;
        let r = self.tally(rolls);
        proof {
            broadcast use vstd::seq_lib::group_to_multiset_ensures;
            if r is Err && self.is_rollable() {
                let t = choose|t: Seq<i64>|
                    {
                        &&& t.to_multiset() == rolled.to_multiset()
                        &&& is_ascending(t)
                        &&& !(i64::MIN <= #[trigger] self.total(t) <= i64::MAX)
                    };
                assert(t.len() == t.to_multiset().len());
                assert(rolled.len() == rolled.to_multiset().len());
                assert forall|i: int| 0 <= i < t.len() implies 1 <= #[trigger] t[i] <= self.size by {
                    assert(t.contains(t[i]));
                    assert(t.to_multiset().count(t[i]) > 0);
                    assert(rolled.contains(t[i]));
                }
                lemma_total_bounds(*self, t);
            }
            if r is Ok {
                let out = r->Ok_0.rolls@;
                assert(out.len() == out.to_multiset().len());
                assert(rolled.len() == rolled.to_multiset().len());
                assert forall|i: int| 0 <= i < out.len() implies 1 <= #[trigger] out[i] <= self.size by {
                    assert(out.contains(out[i]));
                    assert(out.to_multiset().count(out[i]) > 0);
                    assert(rolled.contains(out[i]));
                }
            }
        }
        r
    }
}

} // verus!
