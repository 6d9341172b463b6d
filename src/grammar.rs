//! The expression grammar.
//!
//! ```text
//! expression     := number_of_dice? "d" die_size drop_keep? modifier?
//!                 | number_of_dice
//! drop_keep      := ("d" | "D" | "k" | "K") digits
//! modifier       := ("+" | "-") digits
//! ```
//!
//! A bare number is a single die of that size. The keep/drop letters read:
//! `d` drops the lowest dice, `D` drops the highest, `k` keeps the highest and
//! `K` keeps the lowest.

use vstd::prelude::*;

verus! {

/// The productions of the grammar that carry a number.
#[derive(Clone, Copy, Debug, PartialEq, Eq, Structural)]
pub enum Rule {
    NDice,
    DieSize,
    NLowToDrop,
    NHighToDrop,
    NHighToKeep,
    NLowToKeep,
    AddValue,
    SubtractValue,
}

/// One sub-match of an expression: its production and the span
/// `start..end` (character indices) of its digits in the token.
#[derive(Clone, Copy, Debug, PartialEq, Eq, Structural)]
pub struct Part {
    pub rule: Rule,
    pub start: usize,
    pub end: usize,
}

pub open spec fn is_digit(c: char) -> bool {
    '0' <= c && c <= '9'
}

/// The end of the run of digits of `s` that starts at `i`.
pub open spec fn run_end(s: Seq<char>, i: int) -> int
    decreases s.len() - i,
{
    if 0 <= i < s.len() && is_digit(s[i]) {
        run_end(s, i + 1)
    } else {
        i
    }
}

/// The production that a keep/drop letter introduces.
pub open spec fn keep_drop_rule(c: char) -> Option<Rule> {
    if c == 'd' {
        Some(Rule::NLowToDrop)
    } else if c == 'D' {
        Some(Rule::NHighToDrop)
    } else if c == 'k' {
        Some(Rule::NHighToKeep)
    } else if c == 'K' {
        Some(Rule::NLowToKeep)
    } else {
        None
    }
}

/// The production that a modifier sign introduces.
pub open spec fn modifier_rule(c: char) -> Option<Rule> {
    if c == '+' {
        Some(Rule::AddValue)
    } else if c == '-' {
        Some(Rule::SubtractValue)
    } else {
        None
    }
}

pub open spec fn part(rule: Rule, start: int, end: int) -> Part {
    Part { rule, start: start as usize, end: end as usize }
}

/// `modifier?` and the end of the token, from position `i`.
pub open spec fn scan_modifier(s: Seq<char>, i: int) -> Result<Seq<Part>, int> {
    if i >= s.len() {
        Ok(seq![])
    } else if let Some(rule) = modifier_rule(s[i]) {
        let e = run_end(s, i + 1);
        if e == i + 1 {
            Err(e)
        } else if e < s.len() {
            Err(e)
        } else {
            Ok(seq![part(rule, i + 1, e)])
        }
    } else {
        Err(i)
    }
}

/// `drop_keep? modifier?` and the end of the token, from position `i`.
pub open spec fn scan_tail(s: Seq<char>, i: int) -> Result<Seq<Part>, int> {
    if i < s.len() && keep_drop_rule(s[i]) is Some {
        let e = run_end(s, i + 1);
        if e == i + 1 {
            Err(e)
        } else {
            match scan_modifier(s, e) {
                Ok(rest) => Ok(seq![part(keep_drop_rule(s[i])->0, i + 1, e)] + rest),
                Err(p) => Err(p),
            }
        }
    } else {
        scan_modifier(s, i)
    }
}

/// The sub-matches of a whole token, or the position at which it stops
/// following the grammar.
pub open spec fn scan(s: Seq<char>) -> Result<Seq<Part>, int> {
    let a = run_end(s, 0);
    if a == s.len() && a > 0 {
        Ok(seq![part(Rule::DieSize, 0, a)])
    } else if a < s.len() && s[a] == 'd' {
        let lead = if a > 0 {
            seq![part(Rule::NDice, 0, a)]
        } else {
            seq![]
        };
        let b = run_end(s, a + 1);
        if b == a + 1 {
            Err(b)
        } else {
            match scan_tail(s, b) {
                Ok(rest) => Ok(lead + seq![part(Rule::DieSize, a + 1, b)] + rest),
                Err(p) => Err(p),
            }
        }
    } else {
        Err(a)
    }
}

proof fn lemma_run_end_bounds(s: Seq<char>, i: int)
    requires
        0 <= i <= s.len(),
    ensures
        i <= run_end(s, i) <= s.len(),
        forall|j: int| i <= j < run_end(s, i) ==> is_digit(s[j]),
        run_end(s, i) < s.len() ==> !is_digit(s[run_end(s, i)]),
    decreases s.len() - i,
{
    if i < s.len() && is_digit(s[i]) {
        lemma_run_end_bounds(s, i + 1);
    }
}

/// The span of `p` lies in `s` and holds digits only.
pub open spec fn span_in(s: Seq<char>, p: Part) -> bool {
    &&& p.start <= p.end <= s.len()
    &&& forall|j: int| p.start <= j < p.end ==> is_digit(s[j])
}

/// Every span of `parts` lies in `s` and holds digits only.
pub open spec fn spans_in(s: Seq<char>, parts: Seq<Part>) -> bool {
    forall|k: int| 0 <= k < parts.len() ==> #[trigger] span_in(s, parts[k])
}

proof fn lemma_scan_modifier_spans(s: Seq<char>, i: int)
    requires
        0 <= i <= s.len() <= usize::MAX,
    ensures
        scan_modifier(s, i) is Ok ==> spans_in(s, scan_modifier(s, i)->Ok_0),
{
    if i < s.len() {
        lemma_run_end_bounds(s, i + 1);
    }
}

proof fn lemma_scan_tail_spans(s: Seq<char>, i: int)
    requires
        0 <= i <= s.len() <= usize::MAX,
    ensures
        scan_tail(s, i) is Ok ==> spans_in(s, scan_tail(s, i)->Ok_0),
{
    lemma_scan_modifier_spans(s, i);
    if i < s.len() && keep_drop_rule(s[i]) is Some {
        lemma_run_end_bounds(s, i + 1);
        let e = run_end(s, i + 1);
        lemma_scan_modifier_spans(s, e);
        if let Ok(rest) = scan_modifier(s, e) {
            let all = seq![part(keep_drop_rule(s[i])->0, i + 1, e)] + rest;
            assert forall|k: int| 0 <= k < all.len() implies span_in(s, all[k]) by {
                if k > 0 {
                    assert(all[k] == rest[k - 1]);
                }
            }
        }
    }
}

/// The sub-matches of a token that follows the grammar lie in it and hold
/// digits only.
pub proof fn lemma_scan_spans(s: Seq<char>)
    requires
        s.len() <= usize::MAX,
    ensures
        scan(s) is Ok ==> spans_in(s, scan(s)->Ok_0),
{
    lemma_run_end_bounds(s, 0);
    let a = run_end(s, 0);
    if a < s.len() && s[a] == 'd' {
        lemma_run_end_bounds(s, a + 1);
        let b = run_end(s, a + 1);
        lemma_scan_tail_spans(s, b);
        if let Ok(rest) = scan_tail(s, b) {
            let lead = if a > 0 { seq![part(Rule::NDice, 0, a)] } else { seq![] };
            let all = lead + seq![part(Rule::DieSize, a + 1, b)] + rest;
            assert forall|k: int| 0 <= k < all.len() implies span_in(s, all[k]) by {
                if k > lead.len() {
                    assert(all[k] == rest[k - lead.len() - 1]);
                }
            }
        }
    }
}

/// The characters of a token, in order.
pub(crate) fn chars_of(s: &str) -> (cs: Vec<char>)
    ensures
        cs@ == s@,
{
    let mut cs: Vec<char> = Vec::new();
    for c in it: s.chars()
        invariant
            cs@ == it.seq().take(it.index() as int),
    {
        cs.push(c);
    }
    cs
}


fn digit_run_end(cs: &Vec<char>, i: usize) -> (e: usize)
    requires
        i <= cs@.len(),
    ensures
        e == run_end(cs@, i as int),
{
    let mut j = i;
    while j < cs.len() && cs[j] >= '0' && cs[j] <= '9'
        invariant
            i <= j <= cs@.len(),
            run_end(cs@, j as int) == run_end(cs@, i as int),
        decreases cs@.len() - j,
    {
        j = j + 1;
    }
    j
}

fn keep_drop_of(c: char) -> (r: Option<Rule>)
    ensures
        r == keep_drop_rule(c),
{
    match c {
        'd' => Some(Rule::NLowToDrop),
        'D' => Some(Rule::NHighToDrop),
        'k' => Some(Rule::NHighToKeep),
        'K' => Some(Rule::NLowToKeep),
        _ => None,
    }
}

fn modifier_of(c: char) -> (r: Option<Rule>)
    ensures
        r == modifier_rule(c),
{
    match c {
        '+' => Some(Rule::AddValue),
        '-' => Some(Rule::SubtractValue),
        _ => None,
    }
}

fn read_modifier(cs: &Vec<char>, i: usize, parts: &mut Vec<Part>) -> (r: Result<(), usize>)
    requires
        i <= cs@.len(),
    ensures
        match scan_modifier(cs@, i as int) {
            Ok(rest) => r is Ok && final(parts)@ == old(parts)@ + rest,
            Err(p) => r == Err::<(), usize>(p as usize),
        },
{
    if i >= cs.len() {
        assert(old(parts)@ + seq![] =~= old(parts)@);
        return Ok(());
    }
    match modifier_of(cs[i]) {
        Some(rule) => {
            let e = digit_run_end(cs, i + 1);
            proof {
                lemma_run_end_bounds(cs@, i + 1);
            }
            if e == i + 1 || e < cs.len() {
                Err(e)
            } else {
                parts.push(Part { rule, start: i + 1, end: e });
                Ok(())
            }
        },
        None => Err(i),
    }
}

fn read_tail(cs: &Vec<char>, i: usize, parts: &mut Vec<Part>) -> (r: Result<(), usize>)
    requires
        i <= cs@.len(),
    ensures
        match scan_tail(cs@, i as int) {
            Ok(rest) => r is Ok && final(parts)@ == old(parts)@ + rest,
            Err(p) => r == Err::<(), usize>(p as usize),
        },
{
    if i < cs.len() {
        if let Some(rule) = keep_drop_of(cs[i]) {
            let e = digit_run_end(cs, i + 1);
            proof {
                lemma_run_end_bounds(cs@, i + 1);
            }
            if e == i + 1 {
                return Err(e);
            }
            parts.push(Part { rule, start: i + 1, end: e });
            let r = read_modifier(cs, e, parts);
            proof {
                if let Ok(rest) = scan_modifier(cs@, e as int) {
                    assert(final(parts)@ =~= old(parts)@ + (seq![part(rule, i + 1, e as int)] + rest));
                }
            }
            return r;
        }
    }
    read_modifier(cs, i, parts)
}

/// The parser of dice expressions.
pub struct ExprParser;

impl ExprParser {
    /// Splits a token into its sub-matches, or gives the character index at
    /// which it stops following the grammar.
    pub fn parse(s: &str) -> (r: Result<Vec<Part>, usize>)
        ensures
            match scan(s@) {
                Ok(parts) => r is Ok && r->Ok_0@ == parts,
                Err(p) => r == Err::<Vec<Part>, usize>(p as usize),
            },
    {
        let cs = chars_of(s);
        scan_chars(&cs)
    }
}

/// `ExprParser::parse` on the characters of a token.
pub(crate) fn scan_chars(cs: &Vec<char>) -> (r: Result<Vec<Part>, usize>)
    ensures
        match scan(cs@) {
            Ok(parts) => r is Ok && r->Ok_0@ == parts,
            Err(p) => r == Err::<Vec<Part>, usize>(p as usize),
        },
{
    let a = digit_run_end(cs, 0);
    proof {
        lemma_run_end_bounds(cs@, 0);
    }
    let mut parts: Vec<Part> = Vec::new();
    if a == cs.len() && a > 0 {
        parts.push(Part { rule: Rule::DieSize, start: 0, end: a });
        return Ok(parts);
    }
    if a >= cs.len() || cs[a] != 'd' {
        return Err(a);
    }
    if a > 0 {
        parts.push(Part { rule: Rule::NDice, start: 0, end: a });
    }
    let b = digit_run_end(cs, a + 1);
    proof {
        lemma_run_end_bounds(cs@, a + 1);
    }
    if b == a + 1 {
        return Err(b);
    }
    parts.push(Part { rule: Rule::DieSize, start: a + 1, end: b });
    let ghost head = parts@;
    match read_tail(cs, b, &mut parts) {
        Ok(()) => {
            proof {
                let lead = if a > 0 { seq![part(Rule::NDice, 0, a as int)] } else { seq![] };
                assert(head =~= lead + seq![part(Rule::DieSize, a + 1, b as int)]);
            }
            Ok(parts)
        },
        Err(p) => Err(p),
    }
}

} // verus!
