//! Decimal notation for counts and fixed-point scores.

use vstd::prelude::*;

verus! {

/// The character for the decimal digit `d`.
pub open spec fn digit_char(d: int) -> char {
    (48 + d) as u8 as char
}

/// The decimal notation of `n`, without leading zeros.
pub open spec fn decimal(n: nat) -> Seq<char>
    decreases n,
{
    if n < 10 {
        seq![digit_char(n as int)]
    } else {
        decimal(n / 10).push(digit_char((n % 10) as int))
    }
}

/// The decimal notation of the last `width` digits of `n`, with leading zeros.
pub open spec fn zero_padded(n: nat, width: nat) -> Seq<char>
    decreases width,
{
    if width == 0 {
        Seq::empty()
    } else {
        zero_padded(n / 10, (width - 1) as nat).push(digit_char((n % 10) as int))
    }
}

/// A score rounded to four decimal places, half up, in ten-thousandths.
pub open spec fn rounded4(score: int) -> int {
    (score + 50) / 100
}

/// The notation of a score with four decimal places.
pub open spec fn fixed4(score: u64) -> Seq<char> {
    decimal((rounded4(score as int) / 10000) as nat) + seq!['.'] + zero_padded(
        (rounded4(score as int) % 10000) as nat,
        4,
    )
}

/// The characters of the decimal notation of `n`.
pub fn decimal_chars(n: u64) -> (r: Vec<char>)
    ensures
        r@ == decimal(n as nat),
    decreases n,
{
    if n < 10 {
        let mut r: Vec<char> = Vec::new();
        r.push((48u8 + n as u8) as char);
        r
    } else {
        let mut r = decimal_chars(n / 10);
        r.push((48u8 + (n % 10) as u8) as char);
        r
    }
}

/// The last `width` digits of `n`, with leading zeros.
pub fn zero_padded_chars(n: u64, width: usize) -> (r: Vec<char>)
    ensures
        r@ == zero_padded(n as nat, width as nat),
    decreases width,
{
    if width == 0 {
        Vec::new()
    } else {
        let mut r = zero_padded_chars(n / 10, width - 1);
        r.push((48u8 + (n % 10) as u8) as char);
        r
    }
}

/// The characters of a score written with four decimal places.
pub fn fixed4_chars(score: u64) -> (r: Vec<char>)
    ensures
        r@ == fixed4(score),
{
    let v: u64 = ((score as u128 + 50) / 100) as u64;
    let mut r = decimal_chars(v / 10000);
    r.push('.');
    let mut frac = zero_padded_chars(v % 10000, 4);
    r.append(&mut frac);
    r
}

/// `n` zeros; none where `n` is not positive.
pub open spec fn zeros(n: int) -> Seq<char> {
    Seq::new(
        if n > 0 {
            n as nat
        } else {
            0
        },
        |i: int| '0',
    )
}

/// The notation of `n` in at least `width` characters: a minus sign where
/// `n` is negative, then zeros as far as the width asks for them, then the
/// digits of the magnitude.
pub open spec fn min_width(n: int, width: int) -> Seq<char> {
    let digits = decimal(
        (if n < 0 {
            -n
        } else {
            n
        }) as nat,
    );
    let sign = if n < 0 {
        seq!['-']
    } else {
        Seq::empty()
    };
    sign + zeros(width - sign.len() - digits.len()) + digits
}

/// The characters of `n` written in at least `width` characters.
pub fn min_width_chars(n: i64, width: usize) -> (r: Vec<char>)
    ensures
        r@ == min_width(n as int, width as int),
{
    let magnitude: u64 = if n < 0 {
        (-(n as i128)) as u64
    } else {
        n as u64
    };
    let mut digits = decimal_chars(magnitude);
    let mut r: Vec<char> = Vec::new();
    if n < 0 {
        r.push('-');
    }
    let ghost sign = r@;
    let used: usize = r.len();
    let room: usize = if width > used {
        width - used
    } else {
        0
    };
    let pad: usize = if room > digits.len() {
        room - digits.len()
    } else {
        0
    };
    let mut k: usize = 0;
    while k < pad
        invariant
            k <= pad,
            r@ == sign + zeros(k as int),
        decreases pad - k,
    {
        r.push('0');
        k += 1;
        assert(r@ =~= sign + zeros(k as int));
    }
    assert(zeros(pad as int) =~= zeros(width - sign.len() - digits.len()));
    r.append(&mut digits);
    r
}

} // verus!
