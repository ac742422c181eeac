use vstd::prelude::*;

verus! {

pub open spec fn digit(d: nat) -> char {
    ((d + 48) as u8) as char
}

/// The decimal digits of `n`, most significant first.
pub open spec fn decimal(n: nat) -> Seq<char>
    decreases n,
{
    if n < 10 {
        seq![digit(n)]
    } else {
        decimal(n / 10).push(digit(n % 10))
    }
}

/// `x` in decimal, with a leading minus sign when negative.
pub open spec fn signed_decimal(x: int) -> Seq<char> {
    if x < 0 {
        seq!['-'] + decimal((-x) as nat)
    } else {
        decimal(x as nat)
    }
}

/// `s` preceded by as many `fill` characters as bring it to `width`.
pub open spec fn pad_left(s: Seq<char>, width: nat, fill: char) -> Seq<char> {
    if s.len() < width {
        Seq::new((width - s.len()) as nat, |i: int| fill) + s
    } else {
        s
    }
}

/// Relies on String::push: appends the one character `c`.
#[verifier::external_body]
pub(crate) fn push_char(s: &mut String, c: char)
    ensures
        final(s)@ == old(s)@.push(c),
{
    s.push(c)
}

/// Appends the decimal digits of `n`.
pub(crate) fn push_decimal(out: &mut String, n: usize)
    ensures
        final(out)@ == old(out)@ + decimal(n as nat),
    decreases n,
{
    if n >= 10 {
        push_decimal(out, n / 10);
    }
    let d = n % 10;
    push_char(out, ((d as u8) + 48u8) as char);
    assert(final(out)@ =~= old(out)@ + decimal(n as nat));
}

/// Number of decimal digits of `n`.
pub(crate) fn decimal_len(n: usize) -> (r: usize)
    ensures
        r == decimal(n as nat).len(),
        1 <= r <= n as int + 1,
    decreases n,
{
    if n < 10 {
        1
    } else {
        decimal_len(n / 10) + 1
    }
}

/// Appends `count` copies of `c`.
pub(crate) fn push_fill(out: &mut String, count: usize, c: char)
    ensures
        final(out)@ == old(out)@ + Seq::new(count as nat, |i: int| c),
{
    let mut k: usize = 0;
    while k < count
        invariant
            k <= count,
            out@ == old(out)@ + Seq::new(k as nat, |i: int| c),
        decreases count - k,
    {
        push_char(out, c);
        k = k + 1;
        assert(out@ =~= old(out)@ + Seq::new(k as nat, |i: int| c));
    }
}

/// Appends `n` in decimal, padded on the left with `fill` to `width`.
pub(crate) fn push_padded(out: &mut String, n: usize, width: usize, fill: char)
    ensures
        final(out)@ == old(out)@ + pad_left(decimal(n as nat), width as nat, fill),
{
    let len = decimal_len(n);
    if len < width {
        push_fill(out, width - len, fill);
    }
    push_decimal(out, n);
    assert(final(out)@ =~= old(out)@ + pad_left(decimal(n as nat), width as nat, fill));
}

/// Appends `x` in decimal, right-aligned in a field of four characters.
pub(crate) fn push_signed_width4(out: &mut String, x: i8)
    ensures
        final(out)@ == old(out)@ + pad_left(signed_decimal(x as int), 4, ' '),
{
    if x < 0 {
        let m: usize = (-(x as i16)) as usize;
        let len = decimal_len(m) + 1;
        if len < 4 {
            push_fill(out, 4 - len, ' ');
        }
        push_char(out, '-');
        push_decimal(out, m);
    } else {
        push_padded(out, x as usize, 4, ' ');
    }
    assert(final(out)@ =~= old(out)@ + pad_left(signed_decimal(x as int), 4, ' '));
}

} // verus!
