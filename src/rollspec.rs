//! Roll specifications and how a token becomes one.

use vstd::prelude::*;
use crate::grammar::{chars_of, is_digit, lemma_scan_spans, scan, scan_chars, span_in, spans_in, Part, Rule};

verus! {

/// What to roll: `num` dice of `size` sides, which of them count, and a
/// constant added to the total.
#[derive(Clone, Copy, Debug, PartialEq, Eq, Structural)]
pub struct RollSpec {
    pub num: usize,
    pub size: i64,
    pub keep_high: usize,
    pub keep_low: usize,
    pub drop_low: usize,
    pub drop_high: usize,
    pub modifier: i64,
}

/// Why a token is not a roll specification.
#[derive(Clone, Copy, Debug, PartialEq, Eq, Structural)]
pub enum ParseErrorKind {
    /// The token stops following the grammar at this character index.
    Syntax { at: usize },
    /// The digits `start..end` of a production do not fit its field.
    Overflow { rule: Rule, start: usize, end: usize },
    /// The die size is zero.
    ZeroSize,
}

/// A token that could not be read, and why.
#[derive(Clone, Debug)]
pub struct ParseError {
    pub input: String,
    pub kind: ParseErrorKind,
}

/// The value of a run of decimal digits.
pub open spec fn digits_value(t: Seq<char>) -> nat
    decreases t.len(),
{
    if t.len() == 0 {
        0
    } else {
        digits_value(t.drop_last()) * 10 + (t.last() as nat - '0' as nat) as nat
    }
}

/// Whether a production's value fits the field it fills.
pub open spec fn fits(rule: Rule, v: nat) -> bool {
    match rule {
        Rule::DieSize | Rule::AddValue | Rule::SubtractValue => v <= i64::MAX,
        _ => v <= usize::MAX,
    }
}

/// The specification with the field of `rule` set from `v`.
pub open spec fn assign(r: RollSpec, rule: Rule, v: nat) -> RollSpec {
    match rule {
        Rule::NDice => RollSpec { num: v as usize, ..r },
        Rule::DieSize => RollSpec { size: v as i64, ..r },
        Rule::NLowToDrop => RollSpec { drop_low: v as usize, ..r },
        Rule::NHighToDrop => RollSpec { drop_high: v as usize, ..r },
        Rule::NHighToKeep => RollSpec { keep_high: v as usize, ..r },
        Rule::NLowToKeep => RollSpec { keep_low: v as usize, ..r },
        Rule::AddValue => RollSpec { modifier: v as i64, ..r },
        Rule::SubtractValue => RollSpec { modifier: (-v) as i64, ..r },
    }
}

/// The specification before any production is read: one die, nothing kept
/// or dropped, no modifier, and no size yet.
pub open spec fn initial() -> RollSpec {
    RollSpec { num: 1, size: 0, keep_high: 0, keep_low: 0, drop_low: 0, drop_high: 0, modifier: 0 }
}

/// `r` with the productions `parts` of the token `s` applied in order.
pub open spec fn fill(s: Seq<char>, parts: Seq<Part>, r: RollSpec) -> Result<RollSpec, ParseErrorKind>
    decreases parts.len(),
{
    if parts.len() == 0 {
        Ok(r)
    } else {
        let p = parts[0];
        let v = digits_value(s.subrange(p.start as int, p.end as int));
        if fits(p.rule, v) {
            fill(s, parts.drop_first(), assign(r, p.rule, v))
        } else {
            Err(ParseErrorKind::Overflow { rule: p.rule, start: p.start, end: p.end })
        }
    }
}

/// What reading the token `s` gives.
pub open spec fn parse_spec(s: Seq<char>) -> Result<RollSpec, ParseErrorKind> {
    match scan(s) {
        Err(p) => Err(ParseErrorKind::Syntax { at: p as usize }),
        Ok(parts) => match fill(s, parts, initial()) {
            Ok(r) => if r.size == 0 {
                Err(ParseErrorKind::ZeroSize)
            } else {
                Ok(r)
            },
            Err(e) => Err(e),
        },
    }
}

proof fn lemma_digits_value_mono(s: Seq<char>, start: int, j: int, k: int)
    requires
        0 <= start <= j <= k <= s.len(),
        forall|i: int| start <= i < k ==> is_digit(s[i]),
    ensures
        digits_value(s.subrange(start, j)) <= digits_value(s.subrange(start, k)),
    decreases k - j,
{
    if j < k {
        lemma_digits_value_mono(s, start, j, k - 1);
        assert(s.subrange(start, k).drop_last() =~= s.subrange(start, k - 1));
    }
}

/// The value of the digits `cs[start..end]`, if it is at most `limit`.
fn read_number(cs: &Vec<char>, start: usize, end: usize, limit: u64) -> (r: Option<u64>)
    requires
        start <= end <= cs@.len(),
        forall|j: int| start <= j < end ==> is_digit(cs@[j]),
    ensures
        match r {
            Some(v) => v == digits_value(cs@.subrange(start as int, end as int)) && v <= limit,
            None => digits_value(cs@.subrange(start as int, end as int)) > limit,
        },
{
    let mut v: u64 = 0;
    let mut i = start;
    while i < end
        invariant
            start <= i <= end <= cs@.len(),
            forall|j: int| start <= j < end ==> is_digit(cs@[j]),
            v == digits_value(cs@.subrange(start as int, i as int)),
            v <= limit,
        decreases end - i,
    {
        let d = (cs[i] as u32 - '0' as u32) as u64;
        assert(cs@.subrange(start as int, i + 1).drop_last() =~= cs@.subrange(start as int, i as int));
        if d > limit || v > (limit - d) / 10 {
            assert(v * 10 + d > limit) by (nonlinear_arith)
                requires d > limit || v > (limit - d) / 10, d <= 9;
            proof { lemma_digits_value_mono(cs@, start as int, i + 1, end as int); }
            return None;
        }
        assert(v * 10 + d <= limit) by (nonlinear_arith)
            requires v <= (limit - d) / 10, d <= limit;
        v = v * 10 + d;
        i = i + 1;
    }
    Some(v)
}


/// The largest value that the field of `rule` holds.
fn limit_of(rule: Rule) -> (l: u64)
    ensures
        forall|v: nat| fits(rule, v) <==> v <= l,
{
    match rule {
        Rule::DieSize | Rule::AddValue | Rule::SubtractValue => i64::MAX as u64,
        _ => usize::MAX as u64,
    }
}

/// Reads a dice expression such as `3d6`, `d6`, `6`, `4d6d1` or `2d20K1+7`.
///
/// The token must follow the grammar of [`crate::grammar`] to its end; each
/// number must fit its field (`usize` for counts, `i64` for the size and the
/// modifier), and the die size must not be zero. A keep or drop count larger
/// than the number of dice is accepted here and refused when rolling.
pub fn parse(s: &str) -> (r: Result<RollSpec, ParseError>)
    ensures
        match r {
            Ok(spec) => parse_spec(s@) == Ok::<RollSpec, ParseErrorKind>(spec),
            Err(e) => e.input@ == s@ && parse_spec(s@) == Err::<RollSpec, ParseErrorKind>(e.kind),
        },
{
    let cs = chars_of(s);
    let parts = match scan_chars(&cs) {
        Ok(parts) => parts,
        Err(at) => {
            return Err(ParseError { input: String::from_str(s), kind: ParseErrorKind::Syntax { at } });
        },
    };
    proof {
        lemma_scan_spans(cs@);
        assert(parts@.subrange(0, parts@.len() as int) =~= parts@);
    }
    let mut r = RollSpec {
        num: 1,
        size: 0,
        keep_high: 0,
        keep_low: 0,
        drop_low: 0,
        drop_high: 0,
        modifier: 0,
    };
    let mut i: usize = 0;
    while i < parts.len()
        invariant
            cs@ == s@,
            scan(s@) == Ok::<Seq<Part>, int>(parts@),
            i <= parts@.len(),
            spans_in(cs@, parts@),
            fill(s@, parts@, initial()) == fill(s@, parts@.subrange(i as int, parts@.len() as int), r),
        decreases parts@.len() - i,
    {
        let p = parts[i];
        assert(span_in(cs@, parts@[i as int]));
        assert(parts@.subrange(i as int, parts@.len() as int)[0] == p);
        assert(parts@.subrange(i as int, parts@.len() as int).drop_first()
            =~= parts@.subrange(i + 1, parts@.len() as int));
        let v = match read_number(&cs, p.start, p.end, limit_of(p.rule)) {
            Some(v) => v,
            None => {
                let kind = ParseErrorKind::Overflow { rule: p.rule, start: p.start, end: p.end };
                return Err(ParseError { input: String::from_str(s), kind });
            },
        };
        match p.rule {
            Rule::NDice => r.num = v as usize,
            Rule::DieSize => r.size = v as i64,
            Rule::NLowToDrop => r.drop_low = v as usize,
            Rule::NHighToDrop => r.drop_high = v as usize,
            Rule::NHighToKeep => r.keep_high = v as usize,
            Rule::NLowToKeep => r.keep_low = v as usize,
            Rule::AddValue => r.modifier = v as i64,
            Rule::SubtractValue => r.modifier = -(v as i64),
        }
        i = i + 1;
    }
    if r.size == 0 {
        return Err(ParseError { input: String::from_str(s), kind: ParseErrorKind::ZeroSize });
    }
    Ok(r)
}

} // verus!
