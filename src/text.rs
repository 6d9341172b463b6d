//! Text forms of specifications and rolls.

use vstd::prelude::*;
use crate::roll::Roll;
use crate::rollspec::RollSpec;

verus! {

pub open spec fn digit_char(d: nat) -> char {
    if d == 0 {
        '0'
    } else if d == 1 {
        '1'
    } else if d == 2 {
        '2'
    } else if d == 3 {
        '3'
    } else if d == 4 {
        '4'
    } else if d == 5 {
        '5'
    } else if d == 6 {
        '6'
    } else if d == 7 {
        '7'
    } else if d == 8 {
        '8'
    } else {
        '9'
    }
}

/// The decimal digits of `n`, without leading zeros.
pub open spec fn decimal(n: nat) -> Seq<char>
    decreases n,
{
    if n < 10 {
        seq![digit_char(n)]
    } else {
        decimal(n / 10).push(digit_char(n % 10))
    }
}

/// `i` in decimal, with a `-` in front when it is negative.
pub open spec fn signed_decimal(i: int) -> Seq<char> {
    if i < 0 {
        seq!['-'] + decimal((-i) as nat)
    } else {
        decimal(i as nat)
    }
}

fn digit_str(d: u64) -> (r: &'static str)
    requires
        d < 10,
    ensures
        r@ == seq![digit_char(d as nat)],
{
    proof {
        reveal_strlit("0");
        reveal_strlit("1");
        reveal_strlit("2");
        reveal_strlit("3");
        reveal_strlit("4");
        reveal_strlit("5");
        reveal_strlit("6");
        reveal_strlit("7");
        reveal_strlit("8");
        reveal_strlit("9");
    }
    match d {
        0 => "0",
        1 => "1",
        2 => "2",
        3 => "3",
        4 => "4",
        5 => "5",
        6 => "6",
        7 => "7",
        8 => "8",
        _ => "9",
    }
}

fn push_decimal(out: &mut String, n: u64)
    ensures
        final(out)@ == old(out)@ + decimal(n as nat),
    decreases n,
{
    if n >= 10 {
        push_decimal(out, n / 10);
    }
    out.append(digit_str(n % 10));
    assert(final(out)@ =~= old(out)@ + decimal(n as nat));
}

fn push_signed(out: &mut String, i: i64)
    ensures
        final(out)@ == old(out)@ + signed_decimal(i as int),
{
    if i < 0 {
        proof {
            reveal_strlit("-");
        }
        out.append("-");
        push_decimal(out, (-(i as i128)) as u64);
        assert(final(out)@ =~= old(out)@ + signed_decimal(i as int));
    } else {
        push_decimal(out, i as u64);
    }
}


/// The keep/drop part of an expression: the first count that is not zero,
/// in the order in which evaluation looks at them.
pub open spec fn keep_drop_text(r: RollSpec) -> Seq<char> {
    if r.keep_high != 0 {
        seq!['k'] + decimal(r.keep_high as nat)
    } else if r.drop_low != 0 {
        seq!['d'] + decimal(r.drop_low as nat)
    } else if r.drop_high != 0 {
        seq!['D'] + decimal(r.drop_high as nat)
    } else if r.keep_low != 0 {
        seq!['K'] + decimal(r.keep_low as nat)
    } else {
        seq![]
    }
}

/// The modifier part of an expression: none for zero, else its sign and digits.
pub open spec fn modifier_text(m: int) -> Seq<char> {
    if m > 0 {
        seq!['+'] + decimal(m as nat)
    } else if m < 0 {
        seq!['-'] + decimal((-m) as nat)
    } else {
        seq![]
    }
}

/// A specification as an expression of the grammar, such as `4d6d1+2`.
pub open spec fn expr_text(r: RollSpec) -> Seq<char> {
    decimal(r.num as nat) + seq!['d'] + signed_decimal(r.size as int) + keep_drop_text(r)
        + modifier_text(r.modifier as int)
}

/// The words for the dice that count, such as ` drop lowest 1`.
pub open spec fn keep_drop_words(r: RollSpec) -> Seq<char> {
    if r.keep_high > 0 {
        " keep highest "@ + decimal(r.keep_high as nat)
    } else if r.drop_low > 0 {
        " drop lowest "@ + decimal(r.drop_low as nat)
    } else if r.drop_high > 0 {
        " drop highest "@ + decimal(r.drop_high as nat)
    } else if r.keep_low > 0 {
        " keep lowest "@ + decimal(r.keep_low as nat)
    } else {
        seq![]
    }
}

/// The modifier for a reader: ` +2`, ` -2`, or nothing for zero.
pub open spec fn modifier_words(m: int) -> Seq<char> {
    if m > 0 {
        seq![' ', '+'] + decimal(m as nat)
    } else if m < 0 {
        seq![' '] + signed_decimal(m)
    } else {
        seq![]
    }
}

/// A specification for a reader, such as `4d6 drop lowest 1 +2`.
pub open spec fn describe_text(r: RollSpec) -> Seq<char> {
    decimal(r.num as nat) + seq!['d'] + signed_decimal(r.size as int) + keep_drop_words(r)
        + modifier_words(r.modifier as int)
}

/// The dice of a roll, separated by `, `.
pub open spec fn list_text(s: Seq<i64>) -> Seq<char>
    decreases s.len(),
{
    if s.len() == 0 {
        seq![]
    } else if s.len() == 1 {
        signed_decimal(s[0] as int)
    } else {
        list_text(s.drop_last()) + seq![',', ' '] + signed_decimal(s.last() as int)
    }
}

/// A roll for a reader: its dice in brackets, a tab, and the total, such as
/// `[2, 5, 6]\t13`.
pub open spec fn roll_text(rolls: Seq<i64>, sum: i64) -> Seq<char> {
    seq!['['] + list_text(rolls) + seq![']', '\t'] + signed_decimal(sum as int)
}

fn push_keep_drop(out: &mut String, letter: &str, words: &str, n: usize, as_words: bool)
    ensures
        final(out)@ == old(out)@ + (if as_words { words@ } else { letter@ }) + decimal(n as nat),
{
    if as_words {
        out.append(words);
    } else {
        out.append(letter);
    }
    push_decimal(out, n as u64);
}

impl RollSpec {
    fn push_head(&self, out: &mut String)
        ensures
            final(out)@ == old(out)@ + decimal(self.num as nat) + seq!['d'] + signed_decimal(self.size as int),
    {
        proof {
            reveal_strlit("d");
        }
        push_decimal(out, self.num as u64);
        out.append("d");
        push_signed(out, self.size);
    }

    /// The specification as an expression that reads back to it, such as
    /// `4d6d1+2`.
    pub fn to_expr(&self) -> (t: String)
        ensures
            t@ == expr_text(*self),
    {
        proof {
            reveal_strlit("k");
            reveal_strlit("d");
            reveal_strlit("D");
            reveal_strlit("K");
            reveal_strlit("+");
            reveal_strlit("-");
        }
        let mut out = String::new();
        self.push_head(&mut out);
        let ghost head = out@;
        if self.keep_high != 0 {
            push_keep_drop(&mut out, "k", "", self.keep_high, false);
        } else if self.drop_low != 0 {
            push_keep_drop(&mut out, "d", "", self.drop_low, false);
        } else if self.drop_high != 0 {
            push_keep_drop(&mut out, "D", "", self.drop_high, false);
        } else if self.keep_low != 0 {
            push_keep_drop(&mut out, "K", "", self.keep_low, false);
        }
        assert(out@ =~= head + keep_drop_text(*self));
        let ghost mid = out@;
        if self.modifier > 0 {
            out.append("+");
            push_decimal(&mut out, self.modifier as u64);
        } else if self.modifier < 0 {
            out.append("-");
            push_decimal(&mut out, (-(self.modifier as i128)) as u64);
        }
        assert(out@ =~= mid + modifier_text(self.modifier as int));
        assert(out@ =~= expr_text(*self));
        out
    }

    /// The specification for a reader, such as `4d6 drop lowest 1 +2`.
    pub fn describe(&self) -> (t: String)
        ensures
            t@ == describe_text(*self),
    {
        proof {
            reveal_strlit(" keep highest ");
            reveal_strlit(" drop lowest ");
            reveal_strlit(" drop highest ");
            reveal_strlit(" keep lowest ");
            reveal_strlit(" +");
            reveal_strlit(" ");
        }
        let mut out = String::new();
        self.push_head(&mut out);
        let ghost head = out@;
        if self.keep_high > 0 {
            push_keep_drop(&mut out, "", " keep highest ", self.keep_high, true);
        } else if self.drop_low > 0 {
            push_keep_drop(&mut out, "", " drop lowest ", self.drop_low, true);
        } else if self.drop_high > 0 {
            push_keep_drop(&mut out, "", " drop highest ", self.drop_high, true);
        } else if self.keep_low > 0 {
            push_keep_drop(&mut out, "", " keep lowest ", self.keep_low, true);
        }
        assert(out@ =~= head + keep_drop_words(*self));
        let ghost mid = out@;
        if self.modifier > 0 {
            out.append(" +");
            push_decimal(&mut out, self.modifier as u64);
        } else if self.modifier < 0 {
            out.append(" ");
            push_signed(&mut out, self.modifier);
        }
        assert(out@ =~= mid + modifier_words(self.modifier as int));
        assert(out@ =~= describe_text(*self));
        out
    }
}

impl Roll {
    /// The roll for a reader: every die in brackets, a tab, and the total,
    /// such as `[2, 5, 6]\t13`.
    pub fn describe(&self) -> (t: String)
        ensures
            t@ == roll_text(self.rolls@, self.sum),
    {
        proof {
            reveal_strlit("[");
            reveal_strlit("]\t");
        }
        let mut out = String::new();
        out.append("[");
        let ghost start = out@;
        let mut i: usize = 0;
        while i < self.rolls.len()
            invariant
                i <= self.rolls@.len(),
                out@ == start + list_text(self.rolls@.subrange(0, i as int)),
            decreases self.rolls@.len() - i,
        {
            let ghost before = out@;
            if i > 0 {
                proof {
                    reveal_strlit(", ");
                }
                out.append(", ");
            }
            let ghost sep = out@;
            push_signed(&mut out, self.rolls[i]);
            proof {
                let s = self.rolls@.subrange(0, i + 1);
                assert(s.drop_last() =~= self.rolls@.subrange(0, i as int));
                if i > 0 {
                    assert(sep =~= before + seq![',', ' ']);
                }
                assert(out@ =~= start + list_text(s));
            }
            i = i + 1;
        }
        assert(self.rolls@.subrange(0, self.rolls@.len() as int) =~= self.rolls@);
        out.append("]\t");
        push_signed(&mut out, self.sum);
        assert(out@ =~= roll_text(self.rolls@, self.sum));
        out
    }
}

} // verus!
