//! Writing whole numbers and lists of them, so that what was written can be
//! told apart.

use vstd::prelude::*;

verus! {

/// The digit for `d`.
pub open spec fn digit_char(d: int) -> char {
    (48 + d) as char
}

/// Whether `c` is one of the ten digits.
pub open spec fn is_digit(c: char) -> bool {
    '0' <= c <= '9'
}

/// A natural number in decimal, without leading zeros.
pub open spec fn decimal(n: nat) -> Seq<char>
    decreases n,
{
    if n < 10 {
        seq![digit_char(n as int)]
    } else {
        decimal(n / 10).push(digit_char((n % 10) as int))
    }
}

/// The number that digits stand for.
pub open spec fn decimal_value(digits: Seq<char>) -> int
    decreases digits.len(),
{
    if digits.len() == 0 {
        0
    } else {
        decimal_value(digits.drop_last()) * 10 + (digits.last() as int - 48)
    }
}

/// A whole number in decimal, with `-` before it where it is negative.
pub open spec fn number_text(i: i32) -> Seq<char> {
    if i < 0 {
        seq!['-'] + decimal((-(i as int)) as nat)
    } else {
        decimal(i as nat)
    }
}

/// The numbers of a list, with a comma and a space between two of them.
pub open spec fn items_text(items: Seq<i32>) -> Seq<char>
    decreases items.len(),
{
    if items.len() == 0 {
        Seq::empty()
    } else if items.len() == 1 {
        number_text(items[0])
    } else {
        number_text(items[0]) + (seq![',', ' '] + items_text(items.drop_first()))
    }
}

/// A list of numbers in brackets.
pub open spec fn list_text(items: Seq<i32>) -> Seq<char> {
    seq!['['] + (items_text(items) + seq![']'])
}

/// A number in decimal is made of digits, at least one, and stands for
/// itself.
pub proof fn lemma_decimal(n: nat)
    ensures
        decimal(n).len() > 0,
        forall|i: int| 0 <= i < decimal(n).len() ==> is_digit(#[trigger] decimal(n)[i]),
        decimal_value(decimal(n)) == n,
    decreases n,
{
    if n < 10 {
        assert(decimal(n).drop_last() == Seq::<char>::empty());
        assert(decimal_value(decimal(n).drop_last()) == 0);
    } else {
        lemma_decimal(n / 10);
        assert(decimal(n).drop_last() == decimal(n / 10));
    }
}

/// Two numbers in decimal, each followed by something that does not begin
/// with a digit, are one number where the two texts are one text.
pub proof fn lemma_decimal_unique(n: nat, m: nat, rest_n: Seq<char>, rest_m: Seq<char>)
    requires
        decimal(n) + rest_n == decimal(m) + rest_m,
        rest_n.len() > 0 && !is_digit(rest_n[0]),
        rest_m.len() > 0 && !is_digit(rest_m[0]),
    ensures
        n == m,
        rest_n == rest_m,
{
    let a = decimal(n);
    let b = decimal(m);
    let whole = a + rest_n;
    lemma_decimal(n);
    lemma_decimal(m);
    if a.len() < b.len() {
        assert(whole[a.len() as int] == rest_n[0]);
        assert((b + rest_m)[a.len() as int] == b[a.len() as int]);
    } else if b.len() < a.len() {
        assert((b + rest_m)[b.len() as int] == rest_m[0]);
        assert(whole[b.len() as int] == a[b.len() as int]);
    }
    assert(whole.take(a.len() as int) == a);
    assert((b + rest_m).take(b.len() as int) == b);
    assert(whole.skip(a.len() as int) == rest_n);
    assert((b + rest_m).skip(b.len() as int) == rest_m);
}

/// How a number begins: with a digit or with `-`.
pub proof fn lemma_number_head(i: i32)
    ensures
        number_text(i).len() > 0,
        is_digit(number_text(i)[0]) || number_text(i)[0] == '-',
        is_digit(number_text(i)[0]) <==> i >= 0,
{
    if i < 0 {
        lemma_decimal((-(i as int)) as nat);
    } else {
        lemma_decimal(i as nat);
    }
}

/// Two numbers, each followed by something that does not begin with a
/// digit, are one number where the two texts are one text.
pub proof fn lemma_number_unique(i: i32, j: i32, rest_i: Seq<char>, rest_j: Seq<char>)
    requires
        number_text(i) + rest_i == number_text(j) + rest_j,
        rest_i.len() > 0 && !is_digit(rest_i[0]),
        rest_j.len() > 0 && !is_digit(rest_j[0]),
    ensures
        i == j,
        rest_i == rest_j,
{
    let whole = number_text(i) + rest_i;
    lemma_number_head(i);
    lemma_number_head(j);
    assert(whole[0] == number_text(i)[0]);
    assert((number_text(j) + rest_j)[0] == number_text(j)[0]);
    if i < 0 {
        let n = (-(i as int)) as nat;
        let m = (-(j as int)) as nat;
        assert(whole.drop_first() == decimal(n) + rest_i);
        assert((number_text(j) + rest_j).drop_first() == decimal(m) + rest_j);
        lemma_decimal_unique(n, m, rest_i, rest_j);
    } else {
        lemma_decimal_unique(i as nat, j as nat, rest_i, rest_j);
    }
}

/// Two lists of numbers, each followed by something that begins with `]`,
/// are one list where the two texts are one text.
pub proof fn lemma_items_unique(a: Seq<i32>, b: Seq<i32>, rest_a: Seq<char>, rest_b: Seq<char>)
    requires
        items_text(a) + rest_a == items_text(b) + rest_b,
        rest_a.len() > 0 && rest_a[0] == ']',
        rest_b.len() > 0 && rest_b[0] == ']',
    ensures
        a == b,
        rest_a == rest_b,
    decreases a.len(),
{
    let whole = items_text(a) + rest_a;
    let other = items_text(b) + rest_b;
    if a.len() == 0 {
        if b.len() > 0 {
            lemma_number_head(b[0]);
            assert(whole[0] == ']');
            assert(other[0] == number_text(b[0])[0]);
        }
    } else if b.len() == 0 {
        lemma_number_head(a[0]);
        assert(other[0] == ']');
        assert(whole[0] == number_text(a[0])[0]);
    } else {
        let tail_a = if a.len() == 1 {
            rest_a
        } else {
            seq![',', ' '] + (items_text(a.drop_first()) + rest_a)
        };
        let tail_b = if b.len() == 1 {
            rest_b
        } else {
            seq![',', ' '] + (items_text(b.drop_first()) + rest_b)
        };
        assert(whole == number_text(a[0]) + tail_a);
        assert(other == number_text(b[0]) + tail_b);
        lemma_number_unique(a[0], b[0], tail_a, tail_b);
        if a.len() == 1 {
            if b.len() > 1 {
                assert(tail_b[0] == ',');
            }
        } else {
            if b.len() == 1 {
                assert(tail_a[0] == ',');
            } else {
                assert(tail_a.skip(2) == items_text(a.drop_first()) + rest_a);
                assert(tail_b.skip(2) == items_text(b.drop_first()) + rest_b);
                lemma_items_unique(a.drop_first(), b.drop_first(), rest_a, rest_b);
            }
        }
        assert(a == seq![a[0]] + a.drop_first());
        assert(b == seq![b[0]] + b.drop_first());
        if a.len() == 1 && b.len() == 1 {
            assert(a.drop_first() == b.drop_first());
        }
    }
}

/// Two lists in brackets are one list where one text begins the other.
pub proof fn lemma_list_unique(a: Seq<i32>, b: Seq<i32>, rest_a: Seq<char>, rest_b: Seq<char>)
    requires
        list_text(a) + rest_a == list_text(b) + rest_b,
    ensures
        a == b,
{
    let end_a = seq![']'] + rest_a;
    let end_b = seq![']'] + rest_b;
    assert((list_text(a) + rest_a).drop_first() == items_text(a) + end_a);
    assert((list_text(b) + rest_b).drop_first() == items_text(b) + end_b);
    lemma_items_unique(a, b, end_a, end_b);
}

fn write_decimal(n: u32, out: &mut Vec<char>)
    ensures
        final(out)@ == old(out)@ + decimal(n as nat),
    decreases n,
{
    if n >= 10 {
        write_decimal(n / 10, out);
    }
    let digit = (48u8 + (n % 10) as u8) as char;
    out.push(digit);
    proof {
        if n >= 10 {
            assert(out@ == old(out)@ + decimal((n / 10) as nat).push(digit));
        } else {
            assert(out@ == old(out)@ + seq![digit]);
        }
    }
}

/// Appends a number in decimal.
pub fn write_number(i: i32, out: &mut Vec<char>)
    ensures
        final(out)@ == old(out)@ + number_text(i),
{
    if i < 0 {
        out.push('-');
        let magnitude: u32 = (-(i as i64)) as u32;
        write_decimal(magnitude, out);
        assert(out@ == old(out)@ + (seq!['-'] + decimal(magnitude as nat)));
    } else {
        write_decimal(i as u32, out);
    }
}

/// Appends a list of numbers in brackets.
pub fn write_list(items: &Vec<i32>, out: &mut Vec<char>)
    ensures
        final(out)@ == old(out)@ + list_text(items@),
{
    out.push('[');
    let ghost start = out@;
    let mut i: usize = 0;
    assert(items@.skip(0) == items@);
    while i < items.len()
        invariant
            i <= items.len(),
            start == old(out)@.push('['),
            out@ + items_text(items@.skip(i as int)) == start + items_text(items@),
        decreases items.len() - i,
    {
        let ghost rest = items@.skip(i as int);
        let ghost before = out@;
        proof {
            assert(rest[0] == items@[i as int]);
            assert(rest.drop_first() == items@.skip(i + 1));
        }
        write_number(items[i], out);
        if i + 1 < items.len() {
            out.push(',');
            out.push(' ');
            proof {
                assert(rest.len() > 1);
                assert(out@ == before + (number_text(rest[0]) + seq![',', ' ']));
                assert(out@ + items_text(rest.drop_first()) == before + items_text(rest));
            }
        } else {
            proof {
                assert(rest.len() == 1);
                assert(items_text(rest.drop_first()) == Seq::<char>::empty());
                assert(out@ + items_text(rest.drop_first()) == before + items_text(rest));
            }
        }
        i += 1;
    }
    proof {
        assert(items@.skip(i as int) == Seq::<i32>::empty());
        assert(out@ + Seq::<char>::empty() == out@);
    }
    out.push(']');
    assert(out@ == old(out)@ + (seq!['['] + (items_text(items@) + seq![']'])));
}

} // verus!
