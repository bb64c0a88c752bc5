//! Text forms of child keys, as they appear in messages.
use vstd::prelude::*;
use vstd::string::*;
use crate::child_key::{ChildKey, ChildKeyView, NumberKey};

verus! {

/// The character of a decimal digit.
pub open spec fn digit_char(d: nat) -> char {
    if d == 0 {
        '0'
    } else if d == 1 {
        '1'
    } else if d == 2 {
        '2'
    } else if d == 3 {
        '3'
    } else if d == 4 {
        '4'
    } else if d == 5 {
        '5'
    } else if d == 6 {
        '6'
    } else if d == 7 {
        '7'
    } else if d == 8 {
        '8'
    } else {
        '9'
    }
}

/// The decimal digits of a natural number, most significant first, without
/// leading zeros (zero is written `0`).
pub open spec fn decimal(n: nat) -> Seq<char>
    decreases n,
{
    if n < 10 {
        seq![digit_char(n)]
    } else {
        decimal(n / 10).push(digit_char(n % 10))
    }
}

/// The number that a decimal digit stands for.
pub open spec fn digit_value(c: char) -> int {
    (c as int) - ('0' as int)
}

/// The number that a string of decimal digits stands for, most significant
/// digit first.
pub open spec fn digits_value(s: Seq<char>) -> int
    decreases s.len(),
{
    if s.len() == 0 {
        0
    } else {
        digits_value(s.drop_last()) * 10 + digit_value(s.last())
    }
}

/// Reading the decimal form of a number back gives the number: each
/// character is a digit from `0` to `9`, the first one is not `0` unless the
/// number is zero, and the digits stand for the number.
pub proof fn lemma_decimal_reads_back(n: nat)
    ensures
        digits_value(decimal(n)) == n,
        decimal(n).len() >= 1,
        forall|i: int| #![trigger decimal(n)[i]] 0 <= i < decimal(n).len() ==> 0 <= digit_value(decimal(n)[i]) <= 9,
        n > 0 ==> decimal(n)[0] != '0',
        n == 0 ==> decimal(n) == seq!['0'],
    decreases n,
{
    if n < 10 {
        let s = decimal(n);
        assert(s.drop_last() =~= Seq::<char>::empty());
        assert(digit_value(digit_char(n)) == n);
        assert(digits_value(s) == digits_value(s.drop_last()) * 10 + digit_value(s.last()));
    } else {
        lemma_decimal_reads_back(n / 10);
        let s = decimal(n);
        let t = decimal(n / 10);
        assert(s.drop_last() =~= t);
        assert(digit_value(digit_char(n % 10)) == n % 10);
        assert forall|i: int| #![trigger s[i]] 0 <= i < s.len() implies 0 <= digit_value(s[i]) <= 9 by {
            if i < t.len() {
                assert(s[i] == t[i]);
            }
        }
        assert(s[0] == t[0]);
        assert(n == (n / 10) * 10 + n % 10);
        assert(digits_value(s) == digits_value(s.drop_last()) * 10 + digit_value(s.last()));
    }
}

/// The decimal form of an integer: a minus sign before the digits of a
/// negative number.
pub open spec fn signed_decimal(i: int) -> Seq<char> {
    if i < 0 {
        seq!['-'] + decimal((-i) as nat)
    } else {
        decimal(i as nat)
    }
}

/// The decimal form of an integer reads back to it: a negative number is a
/// minus sign before the digits of its size, any other number is just its
/// digits.
pub proof fn lemma_signed_decimal_reads_back(i: int)
    ensures
        i < 0 ==> signed_decimal(i)[0] == '-' && digits_value(signed_decimal(i).drop_first()) == -i,
        i >= 0 ==> digits_value(signed_decimal(i)) == i,
        i >= 0 ==> signed_decimal(i) == decimal(i as nat),
{
    if i < 0 {
        lemma_decimal_reads_back((-i) as nat);
        assert(signed_decimal(i).drop_first() =~= decimal((-i) as nat));
    } else {
        lemma_decimal_reads_back(i as nat);
    }
}

/// How a numeric key is written: the number, or its parts in brackets,
/// separated by a comma and a space.
pub open spec fn number_key_text(k: NumberKey) -> Seq<char> {
    match k {
        NumberKey::Unsigned(u) => decimal(u as nat),
        NumberKey::Signed(i) => signed_decimal(i as int),
        NumberKey::Pair(x, y) => seq!['('] + decimal(x as nat) + seq![',', ' '] + decimal(y as nat)
            + seq![')'],
        NumberKey::Trio(x, y, z) => seq!['('] + decimal(x as nat) + seq![',', ' '] + decimal(
            y as nat,
        ) + seq![',', ' '] + decimal(z as nat) + seq![')'],
    }
}

/// How a child key is written: a string key as it is, a numeric key as
/// [`number_key_text`] says.
pub open spec fn child_key_text(k: ChildKeyView) -> Seq<char> {
    match k {
        ChildKeyView::Text(s) => s,
        ChildKeyView::Number(n) => number_key_text(n),
    }
}

fn digit_str(d: u32) -> (s: &'static str)
    requires
        d < 10,
    ensures
        s@ == seq![digit_char(d as nat)],
{
    if d == 0 {
        proof {
            reveal_strlit("0");
        }
        "0"
    } else if d == 1 {
        proof {
            reveal_strlit("1");
        }
        "1"
    } else if d == 2 {
        proof {
            reveal_strlit("2");
        }
        "2"
    } else if d == 3 {
        proof {
            reveal_strlit("3");
        }
        "3"
    } else if d == 4 {
        proof {
            reveal_strlit("4");
        }
        "4"
    } else if d == 5 {
        proof {
            reveal_strlit("5");
        }
        "5"
    } else if d == 6 {
        proof {
            reveal_strlit("6");
        }
        "6"
    } else if d == 7 {
        proof {
            reveal_strlit("7");
        }
        "7"
    } else if d == 8 {
        proof {
            reveal_strlit("8");
        }
        "8"
    } else {
        proof {
            reveal_strlit("9");
        }
        "9"
    }
}

/// Appends the decimal digits of `n`.
fn push_decimal(s: &mut String, n: u32)
    ensures
        final(s)@ == old(s)@ + decimal(n as nat),
    decreases n,
{
    if n >= 10 {
        push_decimal(s, n / 10);
    }
    let d = digit_str(n % 10);
    s.append(d);
    proof {
        if n >= 10 {
            assert(s@ =~= old(s)@ + decimal(n as nat));
        } else {
            assert(s@ =~= old(s)@ + decimal(n as nat));
        }
    }
}

/// Appends the decimal form of `i`, with a minus sign when it is negative.
fn push_signed_decimal(s: &mut String, i: i32)
    ensures
        final(s)@ == old(s)@ + signed_decimal(i as int),
{
    if i < 0 {
        let minus = "-";
        proof {
            reveal_strlit("-");
        }
        s.append(minus);
        let magnitude: i64 = -(i as i64);
        push_decimal(s, magnitude as u32);
        proof {
            assert(s@ =~= old(s)@ + signed_decimal(i as int));
        }
    } else {
        push_decimal(s, i as u32);
    }
}

fn push_separator(s: &mut String)
    ensures
        final(s)@ == old(s)@ + seq![',', ' '],
{
    let sep = ", ";
    proof {
        reveal_strlit(", ");
    }
    s.append(sep);
}

fn push_open(s: &mut String)
    ensures
        final(s)@ == old(s)@ + seq!['('],
{
    let open = "(";
    proof {
        reveal_strlit("(");
    }
    s.append(open);
}

fn push_close(s: &mut String)
    ensures
        final(s)@ == old(s)@ + seq![')'],
{
    let close = ")";
    proof {
        reveal_strlit(")");
    }
    s.append(close);
}

impl NumberKey {
    /// The key as text: a number in decimal, a pair as `(x, y)`, a trio as
    /// `(x, y, z)`.
    pub fn to_string(&self) -> (s: String)
        ensures
            s@ == number_key_text(*self),
    {
        let mut s = String::new();
        match self {
            NumberKey::Unsigned(u) => {
                push_decimal(&mut s, *u);
            },
            NumberKey::Signed(i) => {
                push_signed_decimal(&mut s, *i);
            },
            NumberKey::Pair(x, y) => {
                push_open(&mut s);
                push_decimal(&mut s, *x as u32);
                push_separator(&mut s);
                push_decimal(&mut s, *y as u32);
                push_close(&mut s);
            },
            NumberKey::Trio(x, y, z) => {
                push_open(&mut s);
                push_decimal(&mut s, *x as u32);
                push_separator(&mut s);
                push_decimal(&mut s, *y as u32);
                push_separator(&mut s);
                push_decimal(&mut s, *z as u32);
                push_close(&mut s);
            },
        }
        proof {
            assert(s@ =~= number_key_text(*self));
        }
        s
    }
}

impl ChildKey {
    /// The key as text: a string key as it is, a numeric key as
    /// [`NumberKey::to_string`] writes it.
    pub fn to_string(&self) -> (s: String)
        ensures
            s@ == child_key_text(self@),
    {
        match self {
            ChildKey::String(text) => {
                let mut s = String::new();
                s.append(text);
                proof {
                    assert(s@ =~= child_key_text(self@));
                }
                s
            },
            ChildKey::Number(n) => n.to_string(),
        }
    }
}

} // verus!
