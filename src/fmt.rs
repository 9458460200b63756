use vstd::prelude::*;
use crate::attr::{pow10, pow10_i128, lemma_pow10_bounds, Decimal};
use crate::text::push_char;

verus! {

/// The decimal digit for `d < 10`.
pub open spec fn digit(d: nat) -> char {
    if d == 0 { '0' } else if d == 1 { '1' } else if d == 2 { '2' } else if d == 3 { '3' }
    else if d == 4 { '4' } else if d == 5 { '5' } else if d == 6 { '6' } else if d == 7 { '7' }
    else if d == 8 { '8' } else { '9' }
}

/// `n` written in decimal, without leading zeros.
pub open spec fn digits(n: nat) -> Seq<char>
    decreases n,
{
    if n < 10 {
        seq![digit(n)]
    } else {
        digits(n / 10).push(digit(n % 10))
    }
}

/// The last `w` decimal digits of `n`, zero-padded.
pub open spec fn digits_width(n: nat, w: nat) -> Seq<char>
    decreases w,
{
    if w == 0 {
        Seq::empty()
    } else {
        digits_width(n / 10, (w - 1) as nat).push(digit(n % 10))
    }
}

fn digit_char(d: u128) -> (c: char)
    requires
        d < 10,
    ensures
        c == digit(d as nat),
{
    if d == 0 { '0' } else if d == 1 { '1' } else if d == 2 { '2' } else if d == 3 { '3' }
    else if d == 4 { '4' } else if d == 5 { '5' } else if d == 6 { '6' } else if d == 7 { '7' }
    else if d == 8 { '8' } else { '9' }
}

/// Appends `n` in decimal.
pub fn push_digits(s: &mut String, n: u128)
    ensures
        final(s)@ == old(s)@ + digits(n as nat),
    decreases n,
{
    if n >= 10 {
        push_digits(s, n / 10);
    }
    push_char(s, digit_char(n % 10));
    assert(final(s)@ =~= old(s)@ + digits(n as nat));
}

/// Appends the last `w` decimal digits of `n`, zero-padded.
pub fn push_digits_width(s: &mut String, n: u128, w: u8)
    ensures
        final(s)@ == old(s)@ + digits_width(n as nat, w as nat),
    decreases w,
{
    if w > 0 {
        push_digits_width(s, n / 10, w - 1);
        push_char(s, digit_char(n % 10));
    }
    assert(final(s)@ =~= old(s)@ + digits_width(n as nat, w as nat));
}

/// `n` in decimal.
pub fn usize_text(n: usize) -> (r: String)
    ensures
        r@ == digits(n as nat),
{
    let mut s = String::new();
    push_digits(&mut s, n as u128);
    assert(s@ =~= digits(n as nat));
    s
}

/// The magnitude of `u`.
pub open spec fn abs(u: int) -> nat {
    if u < 0 {
        (-u) as nat
    } else {
        u as nat
    }
}

/// A decimal written out: sign, whole part, and as many places as its scale.
pub open spec fn decimal_text(d: Decimal) -> Seq<char> {
    let m = abs(d.units as int);
    let p = pow10(d.scale as nat);
    let sign = if d.units < 0 {
        seq!['-']
    } else {
        Seq::empty()
    };
    let whole = digits((m as int / p) as nat);
    if d.scale == 0 {
        sign + whole
    } else {
        sign + whole + seq!['.'] + digits_width((m as int % p) as nat, d.scale as nat)
    }
}

/// Appends `d` written out.
pub fn push_decimal(s: &mut String, d: Decimal)
    requires
        d.wf(),
    ensures
        final(s)@ == old(s)@ + decimal_text(d),
{
    let m: u64 = if d.units < 0 {
        ((0i128 - d.units as i128) as u64)
    } else {
        d.units as u64
    };
    let p = pow10_i128(d.scale);
    proof {
        lemma_pow10_bounds(d.scale as nat);
    }
    let p64 = p as u64;
    let ghost s0 = s@;
    if d.units < 0 {
        push_char(s, '-');
    }
    let ghost s1 = s@;
    push_digits(s, (m / p64) as u128);
    if d.scale > 0 {
        push_char(s, '.');
        push_digits_width(s, (m % p64) as u128, d.scale);
    }
    proof {
        assert(m as int == abs(d.units as int));
        if d.scale == 0 {
            assert(s@ =~= s0 + decimal_text(d));
        } else {
            assert(s@ =~= s0 + decimal_text(d));
        }
    }
}

/// A list of indices as `[a, b, c]`.
pub open spec fn list_text(v: Seq<usize>) -> Seq<char> {
    seq!['['] + list_items(v) + seq![']']
}

/// The items of a list, joined by `, `.
pub open spec fn list_items(v: Seq<usize>) -> Seq<char>
    decreases v.len(),
{
    if v.len() == 0 {
        Seq::empty()
    } else if v.len() == 1 {
        digits(v[0] as nat)
    } else {
        list_items(v.drop_last()) + seq![',', ' '] + digits(v.last() as nat)
    }
}

/// Appends `v` as `[a, b, c]`.
pub fn push_list(s: &mut String, v: &Vec<usize>)
    ensures
        final(s)@ == old(s)@ + list_text(v@),
{
    let ghost s0 = s@;
    push_char(s, '[');
    let mut i: usize = 0;
    while i < v.len()
        invariant
            i <= v@.len(),
            s@ == s0 + seq!['['] + list_items(v@.subrange(0, i as int)),
        decreases v@.len() - i,
    {
        let ghost before = s@;
        if i > 0 {
            push_char(s, ',');
            push_char(s, ' ');
        }
        push_digits(s, v[i] as u128);
        proof {
            let sub = v@.subrange(0, i + 1);
            assert(sub.drop_last() =~= v@.subrange(0, i as int));
            if i == 0 {
                assert(list_items(v@.subrange(0, 0)) =~= Seq::<char>::empty());
            }
            assert(s@ =~= s0 + seq!['['] + list_items(sub));
        }
        i = i + 1;
    }
    push_char(s, ']');
    assert(v@.subrange(0, i as int) =~= v@);
    assert(s@ =~= s0 + list_text(v@));
}

} // verus!
