//! Properties that relate several functions of the library.

use vstd::prelude::*;
use crate::grammar::{is_digit, keep_drop_rule, part, run_end, scan, scan_modifier, scan_tail, Part, Rule};
use crate::roll::seq_sum;
use crate::rollspec::{assign, digits_value, fill, fits, initial, parse_spec, ParseErrorKind, RollSpec};
use crate::text::{decimal, digit_char, expr_text, keep_drop_text, modifier_text, signed_decimal};

verus! {

/// Keeping as many of the highest dice as there are dice counts every die:
/// the total is the sum of all dice plus the modifier.
pub proof fn lemma_keep_all_high(r: RollSpec, sorted: Seq<i64>)
    requires
        r.is_rollable(),
        r.keep_high == r.num,
        sorted.len() == r.num,
    ensures
        r.total(sorted) == seq_sum(sorted) + r.modifier,
{
    assert(sorted.subrange(r.kept().0, r.kept().1) =~= sorted);
}


proof fn lemma_digit_char(d: nat)
    requires
        d < 10,
    ensures
        is_digit(digit_char(d)),
        (digit_char(d) as nat - '0' as nat) as nat == d,
{
}

proof fn lemma_decimal(n: nat)
    ensures
        decimal(n).len() >= 1,
        forall|i: int| 0 <= i < decimal(n).len() ==> is_digit(#[trigger] decimal(n)[i]),
        digits_value(decimal(n)) == n,
    decreases n,
{
    lemma_digit_char(n % 10);
    if n < 10 {
        assert(seq![digit_char(n)].drop_last() =~= Seq::<char>::empty());
        assert(digits_value(decimal(n)) == digits_value(Seq::<char>::empty()) * 10 + (digit_char(n) as nat - '0' as nat) as nat);
    } else {
        lemma_decimal(n / 10);
        let d = decimal(n);
        assert(d.drop_last() =~= decimal(n / 10));
        assert(d.last() == digit_char(n % 10));
        assert((n / 10) * 10 + n % 10 == n) by (nonlinear_arith);
        assert(digits_value(d) == digits_value(decimal(n / 10)) * 10 + (digit_char(n % 10) as nat - '0' as nat) as nat);
        assert forall|i: int| 0 <= i < d.len() implies is_digit(#[trigger] d[i]) by {
            if i < d.len() - 1 {
                assert(d[i] == decimal(n / 10)[i]);
            }
        }
    }
}

spec fn ten_pow(k: nat) -> nat
    decreases k,
{
    if k == 0 {
        1
    } else {
        10 * ten_pow((k - 1) as nat)
    }
}

proof fn lemma_decimal_len(n: nat, k: nat)
    requires
        n < ten_pow(k),
        k >= 1,
    ensures
        decimal(n).len() <= k,
    decreases k,
{
    if n >= 10 {
        assert(ten_pow(1) == 10) by {
            reveal_with_fuel(ten_pow, 2);
        }
        assert(k >= 2);
        assert(n / 10 < ten_pow((k - 1) as nat)) by (nonlinear_arith)
            requires n < 10 * ten_pow((k - 1) as nat);
        lemma_decimal_len(n / 10, (k - 1) as nat);
    }
}

/// A run of digits that ends where `t` ends or at a character that is not a
/// digit is read whole.
proof fn lemma_run_end_at(t: Seq<char>, i: int, j: int)
    requires
        0 <= i <= j <= t.len(),
        forall|k: int| i <= k < j ==> is_digit(t[k]),
        j == t.len() || !is_digit(t[j]),
    ensures
        run_end(t, i) == j,
    decreases j - i,
{
    if i < j {
        lemma_run_end_at(t, i + 1, j);
    }
}

/// The decimal digits of `n` standing at `i` in `t`, followed by the end or a
/// character that is not a digit, read as `n`.
proof fn lemma_number_at(t: Seq<char>, i: int, n: nat)
    requires
        0 <= i,
        i + decimal(n).len() <= t.len(),
        t.subrange(i, i + decimal(n).len()) == decimal(n),
        i + decimal(n).len() == t.len() || !is_digit(t[i + decimal(n).len()]),
    ensures
        run_end(t, i) == i + decimal(n).len(),
        digits_value(t.subrange(i, i + decimal(n).len())) == n,
{
    lemma_decimal(n);
    let j = i + decimal(n).len();
    assert forall|k: int| i <= k < j implies is_digit(t[k]) by {
        assert(t[k] == decimal(n)[k - i]);
    }
    lemma_run_end_at(t, i, j);
}


spec fn flag(x: usize) -> int {
    if x != 0 {
        1
    } else {
        0
    }
}

/// At most one keep or drop count is set.
spec fn one_count(r: RollSpec) -> bool {
    flag(r.keep_high) + flag(r.drop_low) + flag(r.drop_high) + flag(r.keep_low) <= 1
}

/// The production and letter of the keep/drop part that `expr_text` writes.
spec fn keep_drop_of(r: RollSpec) -> (Rule, char, nat) {
    if r.keep_high != 0 {
        (Rule::NHighToKeep, 'k', r.keep_high as nat)
    } else if r.drop_low != 0 {
        (Rule::NLowToDrop, 'd', r.drop_low as nat)
    } else if r.drop_high != 0 {
        (Rule::NHighToDrop, 'D', r.drop_high as nat)
    } else {
        (Rule::NLowToKeep, 'K', r.keep_low as nat)
    }
}

proof fn lemma_fill_cons(s: Seq<char>, p: Part, rest: Seq<Part>, r: RollSpec)
    requires
        fits(p.rule, digits_value(s.subrange(p.start as int, p.end as int))),
    ensures
        fill(s, seq![p] + rest, r) == fill(
            s,
            rest,
            assign(r, p.rule, digits_value(s.subrange(p.start as int, p.end as int))),
        ),
{
    assert((seq![p] + rest).drop_first() =~= rest);
    assert((seq![p] + rest)[0] == p);
}

proof fn lemma_u64_decimal_len(n: nat)
    requires
        n <= u64::MAX,
    ensures
        decimal(n).len() <= 20,
{
    assert(ten_pow(20) == 100000000000000000000) by {
        reveal_with_fuel(ten_pow, 21);
    }
    lemma_decimal_len(n, 20);
}

/// Whether `expr_text` writes a keep/drop part.
spec fn has_keep_drop(r: RollSpec) -> bool {
    r.keep_high != 0 || r.drop_low != 0 || r.drop_high != 0 || r.keep_low != 0
}

/// The production, sign and digits of the modifier part that `expr_text` writes.
spec fn modifier_of(r: RollSpec) -> (Rule, char, nat) {
    if r.modifier < 0 {
        (Rule::SubtractValue, '-', (-r.modifier) as nat)
    } else {
        (Rule::AddValue, '+', r.modifier as nat)
    }
}

/// Where the die size starts and ends, and where the modifier starts, in
/// `expr_text(r)`.
spec fn layout(r: RollSpec) -> (int, int, int) {
    let a = decimal(r.num as nat).len() as int;
    let b = a + 1 + decimal(r.size as nat).len();
    (a, b, b + keep_drop_text(r).len())
}

/// The sub-matches of `expr_text(r)`.
spec fn expr_parts(r: RollSpec) -> Seq<Part> {
    let (a, b, e) = layout(r);
    let kdp = if has_keep_drop(r) {
        seq![part(keep_drop_of(r).0, b + 1, e)]
    } else {
        Seq::<Part>::empty()
    };
    let mp = if r.modifier != 0 {
        seq![part(modifier_of(r).0, e + 1, expr_text(r).len() as int)]
    } else {
        Seq::<Part>::empty()
    };
    seq![part(Rule::NDice, 0, a)] + (seq![part(Rule::DieSize, a + 1, b)] + (kdp + mp))
}

proof fn lemma_layout(r: RollSpec)
    requires
        r.size >= 1,
    ensures
        ({
            let t = expr_text(r);
            let (a, b, e) = layout(r);
            &&& 1 <= a && a + 2 <= b <= e <= t.len() <= usize::MAX
            &&& t.subrange(0, a) == decimal(r.num as nat)
            &&& t[a] == 'd'
            &&& t.subrange(a + 1, b) == decimal(r.size as nat)
            &&& has_keep_drop(r) ==> b + 2 <= e && t[b] == keep_drop_of(r).1 && t.subrange(b + 1, e)
                == decimal(keep_drop_of(r).2)
            &&& !has_keep_drop(r) ==> e == b
            &&& r.modifier != 0 ==> e + 2 <= t.len() && t[e] == modifier_of(r).1 && t.subrange(
                e + 1,
                t.len() as int,
            ) == decimal(modifier_of(r).2)
            &&& r.modifier == 0 ==> e == t.len()
        }),
{
    let t = expr_text(r);
    let (a, b, e) = layout(r);
    let d1 = decimal(r.num as nat);
    let d2 = decimal(r.size as nat);
    let kt = keep_drop_text(r);
    let mt = modifier_text(r.modifier as int);
    let kv = keep_drop_of(r).2;
    let mv = modifier_of(r).2;
    assert(signed_decimal(r.size as int) == d2);
    lemma_u64_decimal_len(r.num as nat);
    lemma_u64_decimal_len(r.size as nat);
    lemma_u64_decimal_len(kv);
    lemma_u64_decimal_len(mv);
    assert(t.len() == d1.len() + 1 + d2.len() + kt.len() + mt.len());
    assert(t.subrange(0, a) =~= d1);
    assert(t.subrange(a + 1, b) =~= d2);
    assert(t.subrange(b, e) =~= kt);
    assert(t.subrange(e, t.len() as int) =~= mt);
    if has_keep_drop(r) {
        assert(kt == seq![keep_drop_of(r).1] + decimal(kv));
        assert(t[b] == t.subrange(b, e)[0]);
        assert(t.subrange(b + 1, e) =~= t.subrange(b, e).subrange(1, kt.len() as int));
        assert(kt.subrange(1, kt.len() as int) =~= decimal(kv));
    }
    if r.modifier != 0 {
        assert(mt == seq![modifier_of(r).1] + decimal(mv));
        assert(t[e] == t.subrange(e, t.len() as int)[0]);
        assert(t.subrange(e + 1, t.len() as int) =~= t.subrange(e, t.len() as int).subrange(1, mt.len() as int));
        assert(mt.subrange(1, mt.len() as int) =~= decimal(mv));
    }
}


/// The numbers of `expr_text(r)` are read whole, as the fields they came from.
proof fn lemma_numbers(r: RollSpec)
    requires
        r.size >= 1,
    ensures
        ({
            let t = expr_text(r);
            let (a, b, e) = layout(r);
            &&& run_end(t, 0) == a
            &&& digits_value(t.subrange(0, a)) == r.num
            &&& run_end(t, a + 1) == b
            &&& digits_value(t.subrange(a + 1, b)) == r.size
            &&& has_keep_drop(r) ==> run_end(t, b + 1) == e && digits_value(t.subrange(b + 1, e))
                == keep_drop_of(r).2
            &&& r.modifier != 0 ==> run_end(t, e + 1) == t.len() && digits_value(
                t.subrange(e + 1, t.len() as int),
            ) == modifier_of(r).2
        }),
{
    let t = expr_text(r);
    let (a, b, e) = layout(r);
    lemma_layout(r);
    lemma_number_at(t, 0, r.num as nat);
    lemma_number_at(t, a + 1, r.size as nat);
    if has_keep_drop(r) {
        lemma_number_at(t, b + 1, keep_drop_of(r).2);
    }
    if r.modifier != 0 {
        lemma_number_at(t, e + 1, modifier_of(r).2);
    }
}

proof fn lemma_scan_expr(r: RollSpec)
    requires
        r.size >= 1,
    ensures
        scan(expr_text(r)) == Ok::<Seq<Part>, int>(expr_parts(r)),
{
    let t = expr_text(r);
    let (a, b, e) = layout(r);
    lemma_layout(r);
    lemma_numbers(r);
    let kdp = if has_keep_drop(r) {
        seq![part(keep_drop_of(r).0, b + 1, e)]
    } else {
        Seq::<Part>::empty()
    };
    let mp = if r.modifier != 0 {
        seq![part(modifier_of(r).0, e + 1, t.len() as int)]
    } else {
        Seq::<Part>::empty()
    };
    assert(scan_modifier(t, e) == Ok::<Seq<Part>, int>(mp));
    assert(scan_tail(t, b) == Ok::<Seq<Part>, int>(kdp + mp)) by {
        if !has_keep_drop(r) {
            assert(kdp + mp =~= mp);
            if b < t.len() {
                assert(keep_drop_rule(t[b]) is None);
            }
        }
    }
    assert(seq![part(Rule::NDice, 0, a)] + seq![part(Rule::DieSize, a + 1, b)] + (kdp + mp)
        =~= expr_parts(r));
}

proof fn lemma_fill_expr(r: RollSpec)
    requires
        r.size >= 1,
        r.modifier != i64::MIN,
        one_count(r),
    ensures
        fill(expr_text(r), expr_parts(r), initial()) == Ok::<RollSpec, ParseErrorKind>(r),
{
    let t = expr_text(r);
    let (a, b, e) = layout(r);
    lemma_layout(r);
    lemma_numbers(r);
    let kdp = if has_keep_drop(r) {
        seq![part(keep_drop_of(r).0, b + 1, e)]
    } else {
        Seq::<Part>::empty()
    };
    let mp = if r.modifier != 0 {
        seq![part(modifier_of(r).0, e + 1, t.len() as int)]
    } else {
        Seq::<Part>::empty()
    };
    let r1 = assign(initial(), Rule::NDice, r.num as nat);
    let r2 = assign(r1, Rule::DieSize, r.size as nat);
    lemma_fill_cons(t, part(Rule::NDice, 0, a), seq![part(Rule::DieSize, a + 1, b)] + (kdp + mp), initial());
    lemma_fill_cons(t, part(Rule::DieSize, a + 1, b), kdp + mp, r1);
    let r3 = if has_keep_drop(r) {
        assign(r2, keep_drop_of(r).0, keep_drop_of(r).2)
    } else {
        r2
    };
    if has_keep_drop(r) {
        lemma_fill_cons(t, kdp[0], mp, r2);
        assert(kdp == seq![kdp[0]]);
    } else {
        assert(kdp + mp =~= mp);
    }
    assert(fill(t, expr_parts(r), initial()) == fill(t, mp, r3));
    if r.modifier != 0 {
        let (mr, mc, mv) = modifier_of(r);
        lemma_fill_cons(t, mp[0], Seq::<Part>::empty(), r3);
        assert(mp =~= seq![mp[0]] + Seq::<Part>::empty());
        assert(assign(r3, mr, mv) == r);
    } else {
        assert(r3 == r);
    }
}

/// A specification with a positive size, at most one keep or drop count and
/// a modifier other than `i64::MIN` is read back from its expression.
proof fn lemma_reads_back(r: RollSpec)
    requires
        r.size >= 1,
        r.modifier != i64::MIN,
        one_count(r),
    ensures
        parse_spec(expr_text(r)) == Ok::<RollSpec, ParseErrorKind>(r),
{
    lemma_scan_expr(r);
    lemma_fill_expr(r);
}


spec fn rank(rule: Rule) -> int {
    match rule {
        Rule::NDice => 0,
        Rule::DieSize => 1,
        Rule::AddValue | Rule::SubtractValue => 3,
        _ => 2,
    }
}

/// Each production comes after those of lower rank, and at most once.
spec fn rising(parts: Seq<Part>) -> bool {
    forall|i: int, j: int|
        0 <= i < j < parts.len() ==> rank(#[trigger] parts[i].rule) < rank(#[trigger] parts[j].rule)
}

spec fn ranks_from(parts: Seq<Part>, lo: int) -> bool {
    forall|k: int| 0 <= k < parts.len() ==> lo <= rank(#[trigger] parts[k].rule)
}

proof fn lemma_rising_cons(p: Part, rest: Seq<Part>, lo: int)
    requires
        rising(rest),
        ranks_from(rest, lo),
        rank(p.rule) < lo,
    ensures
        rising(seq![p] + rest),
        ranks_from(seq![p] + rest, rank(p.rule)),
{
    let all = seq![p] + rest;
    assert forall|i: int, j: int| 0 <= i < j < all.len() implies rank(#[trigger] all[i].rule) < rank(
        #[trigger] all[j].rule,
    ) by {
        assert(all[j] == rest[j - 1]);
        if i > 0 {
            assert(all[i] == rest[i - 1]);
        }
    }
    assert forall|k: int| 0 <= k < all.len() implies rank(p.rule) <= rank(#[trigger] all[k].rule) by {
        if k > 0 {
            assert(all[k] == rest[k - 1]);
        }
    }
}

proof fn lemma_scan_rising(s: Seq<char>)
    ensures
        scan(s) is Ok ==> rising(scan(s)->Ok_0),
{
    let a = run_end(s, 0);
    if a < s.len() && s[a] == 'd' {
        let b = run_end(s, a + 1);
        if b == a + 1 {
        } else if let Ok(tail) = scan_tail(s, b) {
            if let Ok(m) = scan_modifier(s, b) {
                assert(rising(m) && ranks_from(m, 3));
            }
            if b < s.len() && keep_drop_rule(s[b]) is Some {
                let e = run_end(s, b + 1);
                let m = scan_modifier(s, e)->Ok_0;
                assert(rising(m) && ranks_from(m, 3));
                lemma_rising_cons(tail[0], m, 3);
                assert(tail == seq![tail[0]] + m);
            }
            assert(rising(tail) && ranks_from(tail, 2));
            let pz = part(Rule::DieSize, a + 1, b);
            lemma_rising_cons(pz, tail, 2);
            if a > 0 {
                lemma_rising_cons(part(Rule::NDice, 0, a), seq![pz] + tail, 1);
                assert(scan(s)->Ok_0 =~= seq![part(Rule::NDice, 0, a)] + (seq![pz] + tail));
            } else {
                assert(scan(s)->Ok_0 =~= seq![pz] + tail);
            }
        }
    }
}

spec fn no_count(r: RollSpec) -> bool {
    r.keep_high == 0 && r.drop_low == 0 && r.drop_high == 0 && r.keep_low == 0
}

proof fn lemma_fill_shape(s: Seq<char>, parts: Seq<Part>, r: RollSpec)
    requires
        rising(parts),
        one_count(r),
        r.size >= 0,
        r.modifier != i64::MIN,
        forall|k: int| 0 <= k < parts.len() && rank(#[trigger] parts[k].rule) == 2 ==> no_count(r),
    ensures
        fill(s, parts, r) is Ok ==> {
            let q = fill(s, parts, r)->Ok_0;
            one_count(q) && q.size >= 0 && q.modifier != i64::MIN
        },
    decreases parts.len(),
{
    if parts.len() > 0 {
        let p = parts[0];
        let rest = parts.drop_first();
        let v = digits_value(s.subrange(p.start as int, p.end as int));
        if fits(p.rule, v) {
            let r2 = assign(r, p.rule, v);
            assert forall|i: int, j: int| 0 <= i < j < rest.len() implies rank(#[trigger] rest[i].rule)
                < rank(#[trigger] rest[j].rule) by {
                assert(rest[i] == parts[i + 1] && rest[j] == parts[j + 1]);
            }
            assert forall|k: int| 0 <= k < rest.len() && rank(#[trigger] rest[k].rule) == 2 implies no_count(
                r2,
            ) by {
                assert(rest[k] == parts[k + 1]);
                assert(rank(parts[0].rule) < rank(parts[k + 1].rule));
            }
            if rank(p.rule) == 2 {
                assert(no_count(r));
            }
            lemma_fill_shape(s, rest, r2);
        }
    }
}

/// What a token reads as has a positive size, at most one keep or drop count
/// and a modifier other than `i64::MIN`.
proof fn lemma_parsed_shape(s: Seq<char>)
    requires
        parse_spec(s) is Ok,
    ensures
        ({
            let r = parse_spec(s)->Ok_0;
            r.size >= 1 && r.modifier != i64::MIN && one_count(r)
        }),
{
    lemma_scan_rising(s);
    lemma_fill_shape(s, scan(s)->Ok_0, initial());
}

/// Writing out what a token reads as, and reading that text, gives the same
/// specification again.
pub proof fn lemma_round_trip(s: Seq<char>)
    requires
        parse_spec(s) is Ok,
    ensures
        parse_spec(expr_text(parse_spec(s)->Ok_0)) == parse_spec(s),
{
    lemma_parsed_shape(s);
    lemma_reads_back(parse_spec(s)->Ok_0);
}

} // verus!
