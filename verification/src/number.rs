//! Unsigned numbers as text: decimal and octal rendering, and parsing.
use vstd::prelude::*;
use vstd::string::*;

use crate::text;

verus! {

/// The character of the decimal digit `d`.
pub open spec fn digit_char(d: nat) -> char {
    (48 + d) as char
}

/// The digit that `c` stands for in base `base` (at most ten), if any.
pub open spec fn digit_value(c: char, base: nat) -> Option<nat> {
    if '0' <= c <= '9' && c as nat - 48 < base {
        Some((c as nat - 48) as nat)
    } else {
        None
    }
}

/// `n` in decimal, without leading zeros.
pub open spec fn decimal(n: nat) -> Seq<char>
    decreases n,
{
    if n < 10 {
        seq![digit_char(n)]
    } else {
        decimal(n / 10).push(digit_char(n % 10))
    }
}

/// The number that a sequence of digits stands for; `None` when a character is
/// no digit of the base. The empty sequence stands for zero.
pub open spec fn value(s: Seq<char>, base: nat) -> Option<nat>
    decreases s.len(),
{
    if s.len() == 0 {
        Some(0)
    } else {
        match (value(s.drop_last(), base), digit_value(s.last(), base)) {
            (Some(v), Some(d)) => Some(v * base + d),
            _ => None,
        }
    }
}

/// The digits of a number as it is written: what follows an optional `+`.
pub open spec fn digits_of(s: Seq<char>) -> Seq<char> {
    if s.len() > 0 && s[0] == '+' {
        s.skip(1)
    } else {
        s
    }
}

/// The unsigned number that `s` spells: an optional `+`, then at least one
/// digit, with a value of at most `max`.
pub open spec fn parsed(s: Seq<char>, base: nat, max: nat) -> Option<nat> {
    if digits_of(s).len() == 0 {
        None
    } else {
        match value(digits_of(s), base) {
            Some(v) if v <= max => Some(v),
            _ => None,
        }
    }
}

/// A prefix of a number's digits stands for no more than the number.
proof fn lemma_value_grows(s: Seq<char>, i: int, base: nat)
    requires
        0 <= i <= s.len(),
        base >= 1,
        value(s, base) is Some,
    ensures
        value(s.take(i), base) is Some,
        value(s.take(i), base)->0 <= value(s, base)->0,
    decreases s.len(),
{
    if i == s.len() {
        assert(s.take(i) =~= s);
    } else {
        lemma_value_grows(s.drop_last(), i, base);
        assert(s.drop_last().take(i) =~= s.take(i));
        let v = value(s.drop_last(), base)->0;
        assert(v <= v * base) by (nonlinear_arith)
            requires
                base >= 1,
        ;
    }
}

/// Parse an unsigned number in base eight or ten.
pub fn parse_unsigned(s: &str, base: u128, max: u128) -> (r: Option<u128>)
    requires
        base == 8 || base == 10,
        max >= 10,
    ensures
        match r {
            Some(v) => parsed(s@, base as nat, max as nat) == Some(v as nat),
            None => parsed(s@, base as nat, max as nat) is None,
        },
{
    let cs = text::chars(s);
    let from: usize = if cs.len() > 0 && cs[0] == '+' {
        1
    } else {
        0
    };
    let ghost ds = digits_of(s@);
    assert(cs@.skip(from as int) =~= ds);
    if cs.len() == from {
        return None;
    }
    let mut i: usize = from;
    let mut acc: u128 = 0;
    assert(ds.take(0) =~= Seq::<char>::empty());
    while i < cs.len()
        invariant
            base == 8 || base == 10,
            max >= 10,
            from <= i <= cs@.len(),
            cs@ == s@,
            ds == digits_of(s@),
            cs@.skip(from as int) == ds,
            acc <= max,
            value(ds.take(i - from), base as nat) == Some(acc as nat),
        decreases cs@.len() - i,
    {
        let c = cs[i];
        let ghost now = ds.take(i - from + 1);
        assert(now.drop_last() =~= ds.take(i - from));
        assert(now.last() == c);
        if !('0' <= c && c <= '9') || (c as u32 - 48) as u128 >= base {
            proof {
                if value(ds, base as nat) is Some {
                    lemma_value_grows(ds, i - from + 1, base as nat);
                }
            }
            return None;
        }
        let d: u128 = (c as u32 - 48) as u128;
        if acc > (max - d) / base {
            proof {
                if value(ds, base as nat) is Some {
                    lemma_value_grows(ds, i - from + 1, base as nat);
                }
                assert(acc * base + d > max) by (nonlinear_arith)
                    requires
                        acc > (max - d) / (base as int),
                        base == 8 || base == 10,
                        d <= max,
                ;
            }
            return None;
        }
        assert(acc * base + d <= max) by (nonlinear_arith)
            requires
                acc <= (max - d) / (base as int),
                base == 8 || base == 10,
                d <= max,
        ;
        assert(0 <= acc * base) by (nonlinear_arith)
            requires
                base >= 0,
                acc >= 0,
        ;
        acc = acc * base + d;
        i += 1;
    }
    assert(ds.take(i - from) =~= ds);
    Some(acc)
}

/// `n` in decimal.
pub fn decimal_text(n: u128) -> (r: String)
    ensures
        r@ == decimal(n as nat),
    decreases n,
{
    let d: u8 = (n % 10) as u8;
    let c: char = (48 + d) as char;
    if n < 10 {
        let mut r = String::new();
        r.push(c);
        assert(r@ =~= decimal(n as nat));
        r
    } else {
        let mut r = decimal_text(n / 10);
        r.push(c);
        r
    }
}

/// A number's decimal text is not empty and holds digits only.
pub proof fn lemma_decimal_digits(n: nat)
    ensures
        decimal(n).len() > 0,
        forall|i: int| 0 <= i < decimal(n).len() ==> '0' <= #[trigger] decimal(n)[i] <= '9',
    decreases n,
{
    if n >= 10 {
        lemma_decimal_digits(n / 10);
    }
}

/// The decimal text of a number reads back as that number.
pub proof fn law_decimal_reads_back(n: nat, max: nat)
    requires
        n <= max,
    ensures
        parsed(decimal(n), 10, max) == Some(n),
{
    lemma_decimal_digits(n);
    lemma_decimal_value(n);
    assert(decimal(n)[0] != '+');
}

proof fn lemma_decimal_value(n: nat)
    ensures
        value(decimal(n), 10) == Some(n),
    decreases n,
{
    if n < 10 {
        let s = decimal(n);
        assert(s.drop_last() =~= Seq::<char>::empty());
        assert(value(s.drop_last(), 10) == Some(0nat));
    } else {
        lemma_decimal_value(n / 10);
        assert(decimal(n).drop_last() =~= decimal(n / 10));
    }
}

/// Different numbers have different decimal texts.
pub proof fn law_decimal_injective(a: nat, b: nat)
    requires
        decimal(a) == decimal(b),
    ensures
        a == b,
{
    lemma_decimal_value(a);
    lemma_decimal_value(b);
}

/// A mode of at most twelve bits as four octal digits.
pub open spec fn octal4(mode: nat) -> Seq<char> {
    seq![
        digit_char(mode / 512 % 8),
        digit_char(mode / 64 % 8),
        digit_char(mode / 8 % 8),
        digit_char(mode % 8),
    ]
}

/// A mode of at most twelve bits as four octal digits.
pub fn octal4_text(mode: u32) -> (r: String)
    requires
        mode < 4096,
    ensures
        r@ == octal4(mode as nat),
{
    let mut r = String::new();
    r.push((48 + (mode / 512 % 8) as u8) as char);
    r.push((48 + (mode / 64 % 8) as u8) as char);
    r.push((48 + (mode / 8 % 8) as u8) as char);
    r.push((48 + (mode % 8) as u8) as char);
    assert(r@ =~= octal4(mode as nat));
    r
}

/// A number in octal.
pub open spec fn octal(n: nat) -> Seq<char>
    decreases n,
{
    if n < 8 {
        seq![digit_char(n)]
    } else {
        octal(n / 8).push(digit_char(n % 8))
    }
}

/// A number in octal.
pub fn octal_text(n: u32) -> (r: String)
    ensures
        r@ == octal(n as nat),
    decreases n,
{
    let c: char = (48 + (n % 8) as u8) as char;
    if n < 8 {
        let mut r = String::new();
        r.push(c);
        assert(r@ =~= octal(n as nat));
        r
    } else {
        let mut r = octal_text(n / 8);
        r.push(c);
        r
    }
}

/// Four octal digits spell the mode that they are of.
pub proof fn law_four_octal_digits_spell_the_mode(mode: nat)
    requires
        mode < 4096,
    ensures
        octal4(mode).len() == 4,
        value(octal4(mode), 8) == Some(mode),
{
    let s = octal4(mode);
    let (a, b, c, d) = (mode / 512 % 8, mode / 64 % 8, mode / 8 % 8, mode % 8);
    let s3 = s.drop_last();
    let s2 = s3.drop_last();
    let s1 = s2.drop_last();
    assert(s1.drop_last() =~= Seq::<char>::empty());
    assert(value(s1.drop_last(), 8) == Some(0nat));
    assert(value(s1, 8) == Some(a));
    assert(value(s2, 8) == Some(a * 8 + b));
    assert(value(s3, 8) == Some((a * 8 + b) * 8 + c));
    assert(value(s, 8) == Some(((a * 8 + b) * 8 + c) * 8 + d));
    assert(((a * 8 + b) * 8 + c) * 8 + d == mode);
}

/// The digits of a number in octal spell it.
pub proof fn law_octal_digits_spell_the_number(n: nat)
    ensures
        octal(n).len() > 0,
        value(octal(n), 8) == Some(n),
    decreases n,
{
    if n < 8 {
        assert(octal(n).drop_last() =~= Seq::<char>::empty());
        assert(value(octal(n).drop_last(), 8) == Some(0nat));
    } else {
        law_octal_digits_spell_the_number(n / 8);
        assert(octal(n).drop_last() =~= octal(n / 8));
    }
}

} // verus!
