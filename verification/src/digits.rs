//! Numbers written out in digits.
use vstd::prelude::*;

verus! {

/// The digit for a number below sixteen, in lower case.
pub open spec fn digit(n: nat) -> char {
    if n < 10 {
        ('0' as u32 + n) as char
    } else {
        ('a' as u32 + (n - 10)) as char
    }
}

/// A number in base ten, without leading zeros.
pub open spec fn decimal(n: nat) -> Seq<char>
    decreases n,
{
    if n < 10 {
        seq![digit(n)]
    } else {
        decimal(n / 10).push(digit(n % 10))
    }
}

/// The last `width` digits of a number in base sixteen.
pub open spec fn hexadecimal(n: nat, width: nat) -> Seq<char>
    decreases width,
{
    if width == 0 {
        Seq::empty()
    } else {
        hexadecimal(n / 16, (width - 1) as nat).push(digit(n % 16))
    }
}

fn digit_of(n: u8) -> (c: char)
    requires
        n < 16,
    ensures
        c == digit(n as nat),
{
    if n < 10 {
        (48 + n) as char
    } else {
        (97 + (n - 10)) as char
    }
}

/// Writes a number in base ten.
pub fn push_decimal(out: &mut String, n: usize)
    ensures
        final(out)@ == old(out)@ + decimal(n as nat),
    decreases n,
{
    if n >= 10 {
        push_decimal(out, n / 10);
    }
    out.push(digit_of((n % 10) as u8));
    assert(out@ =~= old(out)@ + decimal(n as nat));
}

/// Writes the last `width` digits of a number in base sixteen.
pub fn push_hexadecimal(out: &mut String, n: u64, width: u8)
    ensures
        final(out)@ == old(out)@ + hexadecimal(n as nat, width as nat),
    decreases width,
{
    if width > 0 {
        push_hexadecimal(out, n / 16, width - 1);
        out.push(digit_of((n % 16) as u8));
    }
    assert(out@ =~= old(out)@ + hexadecimal(n as nat, width as nat));
}

/// Whether a character is a digit in base sixteen, in lower case.
pub open spec fn hex_char(c: char) -> bool {
    '0' <= c <= '9' || 'a' <= c <= 'f'
}

pub proof fn lemma_hexadecimal(n: nat, width: nat)
    ensures
        hexadecimal(n, width).len() == width,
        forall|k: int| 0 <= k < width ==> hex_char(#[trigger] hexadecimal(n, width)[k]),
    decreases width,
{
    if width > 0 {
        lemma_hexadecimal(n / 16, (width - 1) as nat);
    }
}

/// A number in base ten consists of the digits zero to nine, at least one.
pub proof fn lemma_decimal(n: nat)
    ensures
        decimal(n).len() > 0,
        forall|k: int| 0 <= k < decimal(n).len() ==> '0' <= #[trigger] decimal(n)[k] <= '9',
    decreases n,
{
    if n >= 10 {
        lemma_decimal(n / 10);
    }
}

/// Two numbers that are written alike in base ten are equal.
pub proof fn lemma_decimal_injective(a: nat, b: nat)
    requires
        decimal(a) == decimal(b),
    ensures
        a == b,
    decreases a,
{
    lemma_decimal(a / 10);
    lemma_decimal(b / 10);
    assert(decimal(a).last() == digit(a % 10) && decimal(b).last() == digit(b % 10));
    assert(digit(a % 10) as u32 == 48 + a % 10 && digit(b % 10) as u32 == 48 + b % 10);
    if a < 10 {
        assert(decimal(b).len() == 1);
    } else {
        assert(decimal(a).len() > 1);
        assert(decimal(b).len() > 1);
        assert(decimal(a).drop_last() =~= decimal(a / 10));
        assert(decimal(b).drop_last() =~= decimal(b / 10));
        lemma_decimal_injective(a / 10, b / 10);
    }
}

/// A number that is written in base ten is read back digit by digit, and has no zero in
/// front of another digit.
pub proof fn law_decimal_reads_back(n: nat, read: spec_fn(int, char) -> int)
    requires
        forall|v: int, c: char| #[trigger] read(v, c) == 10 * v + (c as int - '0' as int),
    ensures
        decimal(n).fold_left(0, read) == n,
        decimal(n).len() > 0,
        forall|k: int| 0 <= k < decimal(n).len() ==> '0' <= #[trigger] decimal(n)[k] <= '9',
        decimal(n)[0] == '0' ==> n == 0 && decimal(n).len() == 1,
    decreases n,
{
    lemma_decimal(n);
    let s = decimal(n);
    let last = digit(n % 10);
    assert(last as int == 48 + n % 10);
    if n < 10 {
        assert(s.drop_last() =~= Seq::empty());
        assert(s.drop_last().fold_left(0int, read) == 0);
    } else {
        law_decimal_reads_back(n / 10, read);
        lemma_decimal(n / 10);
        assert(s.drop_last() =~= decimal(n / 10));
        assert(s[0] == decimal(n / 10)[0]);
    }
    assert(s.last() == last);
}

/// A number that is written in base sixteen is read back digit by digit, as far as there is
/// room for its digits.
pub proof fn law_hexadecimal_reads_back(n: nat, width: nat, read: spec_fn(int, char) -> int)
    requires
        forall|v: int, c: char| '0' <= c <= '9' ==> #[trigger] read(v, c) == 16 * v + (c as int
            - '0' as int),
        forall|v: int, c: char| 'a' <= c <= 'f' ==> #[trigger] read(v, c) == 16 * v + 10 + (
        c as int - 'a' as int),
    ensures
        hexadecimal(n, width).fold_left(0, read) == n as int % vstd::arithmetic::power::pow(
            16,
            width,
        ),
    decreases width,
{
    let s = hexadecimal(n, width);
    if width == 0 {
        vstd::arithmetic::power::lemma_pow0(16);
        assert(n as int % 1 == 0);
        assert(s.fold_left(0int, read) == 0);
    } else {
        let less = (width - 1) as nat;
        let low = (n % 16) as int;
        let high = (n / 16) as int;
        let power = vstd::arithmetic::power::pow(16, less);
        law_hexadecimal_reads_back(n / 16, less, read);
        assert(s.drop_last() =~= hexadecimal(n / 16, less));
        assert(s.last() == digit(n % 16));
        assert(read(s.drop_last().fold_left(0int, read), s.last()) == 16 * (high % power) + low);
        vstd::arithmetic::power::lemma_pow1(16);
        vstd::arithmetic::power::lemma_pow_positive(16, less);
        reveal(vstd::arithmetic::power::pow);
        assert(vstd::arithmetic::power::pow(16, width) == 16 * power);
        assert(n as int == 16 * high + low);
        vstd::arithmetic::div_mod::lemma_fundamental_div_mod(high, power);
        let q = high / power;
        assert(n as int == q * (16 * power) + (16 * (high % power) + low)) by (nonlinear_arith)
            requires
                n as int == 16 * high + low,
                high == power * q + high % power,
        ;
        assert(16 * (high % power) + low < 16 * power) by (nonlinear_arith)
            requires
                0 <= high % power < power,
                0 <= low < 16,
        ;
        vstd::arithmetic::div_mod::lemma_fundamental_div_mod_converse(
            n as int,
            16 * power,
            q,
            16 * (high % power) + low,
        );
    }
}

} // verus!
