//! Decimal integers in text: reading them as `str::parse` does and writing
//! them as `format!` does.
use vstd::prelude::*;

verus! {

pub open spec fn digit_value(c: char) -> int {
    (c as int) - ('0' as int)
}

pub open spec fn digit_char(d: int) -> char {
    if d <= 0 {
        '0'
    } else if d == 1 {
        '1'
    } else if d == 2 {
        '2'
    } else if d == 3 {
        '3'
    } else if d == 4 {
        '4'
    } else if d == 5 {
        '5'
    } else if d == 6 {
        '6'
    } else if d == 7 {
        '7'
    } else if d == 8 {
        '8'
    } else {
        '9'
    }
}

/// Whether every character of `d` is an ASCII digit.
pub open spec fn all_digits(d: Seq<char>) -> bool {
    forall|i: int| 0 <= i < d.len() ==> '0' <= #[trigger] d[i] <= '9'
}

/// The number that the digits `d` stand for.
pub open spec fn digits_value(d: Seq<char>) -> int
    decreases d.len(),
{
    if d.len() == 0 {
        0
    } else {
        digits_value(d.drop_last()) * 10 + digit_value(d.last())
    }
}

/// The integer that `str::parse` reads from `s` for an integer type whose
/// values run from `min` to `max`: an optional sign (`-` only where `min` is
/// negative), then one or more ASCII digits, the value in range.
pub open spec fn parse_int(s: Seq<char>, min: int, max: int) -> Option<int> {
    let (negative, digits) = if s.len() > 0 && s[0] == '+' {
        (false, s.drop_first())
    } else if s.len() > 0 && s[0] == '-' && min < 0 {
        (true, s.drop_first())
    } else {
        (false, s)
    };
    if digits.len() == 0 || !all_digits(digits) {
        None
    } else {
        let v = if negative {
            -digits_value(digits)
        } else {
            digits_value(digits)
        };
        if min <= v <= max {
            Some(v)
        } else {
            None
        }
    }
}

/// `str::parse::<i64>`.
pub open spec fn parse_i64(s: Seq<char>) -> Option<int> {
    parse_int(s, i64::MIN as int, i64::MAX as int)
}

/// `str::parse::<u32>`.
pub open spec fn parse_u32(s: Seq<char>) -> Option<int> {
    parse_int(s, 0, u32::MAX as int)
}

/// The decimal digits of `n`, without leading zeros.
pub open spec fn decimal(n: nat) -> Seq<char>
    decreases n,
{
    if n < 10 {
        seq![digit_char(n as int)]
    } else {
        decimal(n / 10).push(digit_char((n % 10) as int))
    }
}

/// `d` with zeros in front up to `width` characters.
pub open spec fn pad_zeros(d: Seq<char>, width: int) -> Seq<char> {
    if d.len() >= width {
        d
    } else {
        Seq::new((width - d.len()) as nat, |i: int| '0') + d
    }
}

/// `format!("{:0width$}", n)`: the sign, then the digits zero-padded so that
/// sign and digits together take `width` characters.
pub open spec fn format_int(n: int, width: int) -> Seq<char> {
    if n < 0 {
        seq!['-'] + pad_zeros(decimal((-n) as nat), width - 1)
    } else {
        pad_zeros(decimal(n as nat), width)
    }
}

proof fn lemma_digit_char(k: int)
    requires
        0 <= k < 10,
    ensures
        digit_value(digit_char(k)) == k,
        '0' <= digit_char(k) <= '9',
{
}

/// The digits of `n` are digits, and read back as `n`.
pub proof fn lemma_decimal(n: nat)
    ensures
        decimal(n).len() > 0,
        all_digits(decimal(n)),
        digits_value(decimal(n)) == n,
        decimal(n)[0] != '-' && decimal(n)[0] != '+',
    decreases n,
{
    lemma_digit_char((n % 10) as int);
    if n >= 10 {
        lemma_decimal(n / 10);
        let d = decimal(n);
        assert(d.drop_last() =~= decimal(n / 10));
        assert(n == (n / 10) * 10 + n % 10);
        assert(d.last() == digit_char((n % 10) as int));
        assert(digits_value(d) == digits_value(d.drop_last()) * 10 + digit_value(d.last()));
    } else {
        lemma_digit_char(n as int);
        let d = decimal(n);
        assert(d.drop_last() =~= Seq::<char>::empty());
        assert(digits_value(d) == digits_value(d.drop_last()) * 10 + digit_value(d.last()));
    }
}

/// Zeros in front of digits change neither that they are digits nor what
/// they stand for.
pub proof fn lemma_leading_zeros(z: nat, d: Seq<char>)
    requires
        all_digits(d),
    ensures
        all_digits(Seq::new(z, |i: int| '0') + d),
        digits_value(Seq::new(z, |i: int| '0') + d) == digits_value(d),
    decreases d.len() + z,
{
    let zeros = Seq::new(z, |i: int| '0');
    let s = zeros + d;
    assert forall|i: int| 0 <= i < s.len() implies '0' <= #[trigger] s[i] <= '9' by {
        if i >= z {
            assert(s[i] == d[i - z]);
        }
    }
    if d.len() > 0 {
        lemma_leading_zeros(z, d.drop_last());
        assert(s.drop_last() =~= zeros + d.drop_last());
        assert(s.last() == d.last());
    } else if z > 0 {
        let fewer = Seq::new((z - 1) as nat, |i: int| '0');
        lemma_leading_zeros((z - 1) as nat, d);
        assert(s.drop_last() =~= fewer + d);
        assert(s.last() == '0');
    } else {
        assert(s =~= Seq::<char>::empty());
    }
}

/// What `format_int` writes is all digits after an optional minus sign,
/// and reads back as the number written, whatever the width.
pub proof fn lemma_parse_format_int(n: int, width: int)
    requires
        i64::MIN <= n <= i64::MAX,
    ensures
        parse_i64(format_int(n, width)) == Some(n),
        n >= 0 ==> all_digits(format_int(n, width)) && format_int(n, width).len() > 0,
{
    let m: nat = if n < 0 {
        (-n) as nat
    } else {
        n as nat
    };
    let w = if n < 0 {
        width - 1
    } else {
        width
    };
    lemma_decimal(m);
    let d = decimal(m);
    let p = pad_zeros(d, w);
    if d.len() < w {
        lemma_leading_zeros((w - d.len()) as nat, d);
    }
    assert(all_digits(p) && digits_value(p) == m && p.len() > 0);
    assert(p[0] != '+' && p[0] != '-');
    if n < 0 {
        assert(format_int(n, width) == seq!['-'] + p);
        assert((seq!['-'] + p).drop_first() =~= p);
    }
}

/// Reads a signed decimal integer from `s[lo..hi]` as `str::parse::<i64>`.
pub fn parse_i64_range(s: &[char], lo: usize, hi: usize) -> (r: Option<i64>)
    requires
        lo <= hi <= s.len(),
    ensures
        r matches Some(v) ==> parse_i64(s@.subrange(lo as int, hi as int)) == Some(v as int),
        r is None ==> parse_i64(s@.subrange(lo as int, hi as int)) is None,
{
    let ghost t = s@.subrange(lo as int, hi as int);
    let mut i = lo;
    let mut negative = false;
    if i < hi && s[i] == '+' {
        i = i + 1;
    } else if i < hi && s[i] == '-' {
        negative = true;
        i = i + 1;
    }
    let ghost digits = s@.subrange(i as int, hi as int);
    assert(i > lo ==> digits =~= t.drop_first());
    assert(i == lo ==> digits =~= t);
    assert(lo < hi ==> t[0] == s@[lo as int]);
    assert(i == lo ==> !(t.len() > 0 && (t[0] == '+' || t[0] == '-')));
    assert(i > lo && !negative ==> t[0] == '+');
    assert(negative ==> t[0] == '-' && t[0] != '+');
    if i == hi {
        return None;
    }
    let start = i;
    let mut value: i128 = 0;
    while i < hi
        invariant
            lo <= start <= i <= hi <= s.len(),
            digits == s@.subrange(start as int, hi as int),
            all_digits(s@.subrange(start as int, i as int)),
            value == digits_value(s@.subrange(start as int, i as int)),
            0 <= value <= 0x8000_0000_0000_0000,
            t == s@.subrange(lo as int, hi as int),
            !all_digits(digits) ==> parse_i64(t) is None,
            all_digits(digits) && digits_value(digits) > 0x8000_0000_0000_0000 ==> parse_i64(
                t,
            ) is None,
        decreases hi - i,
    {
        let c = s[i];
        if c < '0' || c > '9' {
            assert(digits[i - start] == c);
            return None;
        }
        proof {
            let p = s@.subrange(start as int, i + 1);
            assert(p.drop_last() =~= s@.subrange(start as int, i as int));
        }
        value = value * 10 + (c as i128 - '0' as i128);
        if value > 0x8000_0000_0000_0000 {
            proof {
                lemma_rest_keeps_large(s@, start as int, i + 1, hi as int);
            }
            return None;
        }
        i = i + 1;
    }
    if negative {
        Some((-value) as i64)
    } else if value <= 0x7fff_ffff_ffff_ffff {
        Some(value as i64)
    } else {
        None
    }
}

/// Once the digits read so far stand for more than `2^63`, more digits can
/// only make the number larger (or make the text no number at all).
proof fn lemma_rest_keeps_large(s: Seq<char>, start: int, i: int, hi: int)
    requires
        0 <= start <= i <= hi <= s.len(),
        all_digits(s.subrange(start, i)),
        digits_value(s.subrange(start, i)) > 0x8000_0000_0000_0000,
    ensures
        all_digits(s.subrange(start, hi)) ==> digits_value(s.subrange(start, hi))
            > 0x8000_0000_0000_0000,
    decreases hi - i,
{
    if i < hi && all_digits(s.subrange(start, hi)) {
        let p = s.subrange(start, i + 1);
        assert(p.drop_last() =~= s.subrange(start, i));
        assert(p[i - start] == s.subrange(start, hi)[i - start]);
        lemma_rest_keeps_large(s, start, i + 1, hi);
    }
}

/// Reads an unsigned decimal integer from `s[lo..hi]` as `str::parse::<u32>`.
pub fn parse_u32_range(s: &[char], lo: usize, hi: usize) -> (r: Option<u32>)
    requires
        lo <= hi <= s.len(),
    ensures
        r matches Some(v) ==> parse_u32(s@.subrange(lo as int, hi as int)) == Some(v as int),
        r is None ==> parse_u32(s@.subrange(lo as int, hi as int)) is None,
{
    let ghost t = s@.subrange(lo as int, hi as int);
    let mut i = lo;
    if i < hi && s[i] == '+' {
        i = i + 1;
    }
    let ghost digits = s@.subrange(i as int, hi as int);
    assert(i > lo ==> digits =~= t.drop_first());
    assert(i == lo ==> digits =~= t);
    assert(lo < hi ==> t[0] == s@[lo as int]);
    assert(i == lo ==> !(t.len() > 0 && t[0] == '+'));
    assert(i > lo ==> t[0] == '+');
    if i == hi {
        return None;
    }
    let start = i;
    let mut value: u64 = 0;
    while i < hi
        invariant
            lo <= start <= i <= hi <= s.len(),
            digits == s@.subrange(start as int, hi as int),
            all_digits(s@.subrange(start as int, i as int)),
            value == digits_value(s@.subrange(start as int, i as int)),
            value <= 0xffff_ffff,
            t == s@.subrange(lo as int, hi as int),
            !all_digits(digits) ==> parse_u32(t) is None,
            all_digits(digits) && digits_value(digits) > 0xffff_ffff ==> parse_u32(t) is None,
        decreases hi - i,
    {
        let c = s[i];
        if c < '0' || c > '9' {
            assert(digits[i - start] == c);
            return None;
        }
        proof {
            let p = s@.subrange(start as int, i + 1);
            assert(p.drop_last() =~= s@.subrange(start as int, i as int));
        }
        value = value * 10 + (c as u64 - '0' as u64);
        if value > 0xffff_ffff {
            proof {
                lemma_rest_keeps_large_u32(s@, start as int, i + 1, hi as int);
            }
            return None;
        }
        i = i + 1;
    }
    Some(value as u32)
}

proof fn lemma_rest_keeps_large_u32(s: Seq<char>, start: int, i: int, hi: int)
    requires
        0 <= start <= i <= hi <= s.len(),
        all_digits(s.subrange(start, i)),
        digits_value(s.subrange(start, i)) > 0xffff_ffff,
    ensures
        all_digits(s.subrange(start, hi)) ==> digits_value(s.subrange(start, hi)) > 0xffff_ffff,
    decreases hi - i,
{
    if i < hi && all_digits(s.subrange(start, hi)) {
        let p = s.subrange(start, i + 1);
        assert(p.drop_last() =~= s.subrange(start, i));
        assert(p[i - start] == s.subrange(start, hi)[i - start]);
        lemma_rest_keeps_large_u32(s, start, i + 1, hi);
    }
}

/// Appends the decimal digits of `n` to `out`.
pub fn push_decimal(out: &mut Vec<char>, n: u128)
    ensures
        final(out)@ == old(out)@ + decimal(n as nat),
    decreases n,
{
    if n >= 10 {
        push_decimal(out, n / 10);
    }
    let d = (n % 10) as u32;
    let c = char_from_digit(d);
    out.push(c);
    proof {
        if n < 10 {
            assert(decimal(n as nat) =~= seq![digit_char(n as int)]);
        }
    }
}

fn char_from_digit(d: u32) -> (c: char)
    requires
        d < 10,
    ensures
        c == digit_char(d as int),
{
    match d {
        0 => '0',
        1 => '1',
        2 => '2',
        3 => '3',
        4 => '4',
        5 => '5',
        6 => '6',
        7 => '7',
        8 => '8',
        _ => '9',
    }
}

/// Appends `format!("{:0width$}", n)` to `out`.
pub fn push_int(out: &mut Vec<char>, n: i64, width: usize)
    ensures
        final(out)@ == old(out)@ + format_int(n as int, width as int),
{
    let mut digits: Vec<char> = Vec::new();
    let negative = n < 0;
    let magnitude: u128 = if negative {
        (-(n as i128)) as u128
    } else {
        n as u128
    };
    push_decimal(&mut digits, magnitude);
    let ghost d = digits@;
    assert(d =~= decimal(magnitude as nat));
    let target: usize = if negative {
        if width > 0 {
            width - 1
        } else {
            0
        }
    } else {
        width
    };
    if negative {
        out.push('-');
    }
    let ghost before = out@;
    let mut k: usize = digits.len();
    while k < target
        invariant
            digits.len() <= k <= target || k == digits.len(),
            out@ == before + Seq::new((k - digits.len()) as nat, |i: int| '0'),
        decreases target - k,
    {
        out.push('0');
        assert(before + Seq::new((k + 1 - digits.len()) as nat, |i: int| '0') =~= (before
            + Seq::new((k - digits.len()) as nat, |i: int| '0')).push('0'));
        k = k + 1;
    }
    let ghost zeros = Seq::new((k - digits.len()) as nat, |i: int| '0');
    crate::text::push_all(out, &digits);
    proof {
        if d.len() >= target {
            assert(zeros =~= Seq::<char>::empty());
            assert(pad_zeros(d, target as int) == d);
        } else {
            assert(pad_zeros(d, target as int) == zeros + d);
        }
        if negative {
            assert(out@ =~= old(out)@ + (seq!['-'] + pad_zeros(d, target as int)));
            assert(width - 1 <= 0 ==> pad_zeros(d, width - 1) == pad_zeros(d, target as int));
        } else {
            assert(out@ =~= old(out)@ + pad_zeros(d, target as int));
        }
    }
}

/// Appends the decimal digits of `n` to `out`, as `format!("{}", n)`.
pub fn push_u64(out: &mut Vec<char>, n: u64)
    ensures
        final(out)@ == old(out)@ + decimal(n as nat),
{
    push_decimal(out, n as u128);
}

// ---------------------------------------------------------------------------
// 64-bit signed arithmetic as Rust performs it
// ---------------------------------------------------------------------------
/// `x` held to the range of `i64`, as the saturating operations do.
pub open spec fn clamp_i64(x: int) -> int {
    if x < i64::MIN {
        i64::MIN as int
    } else if x > i64::MAX {
        i64::MAX as int
    } else {
        x
    }
}

pub open spec fn abs(x: int) -> int {
    if x < 0 {
        -x
    } else {
        x
    }
}

/// Integer division rounding toward zero, as Rust's `/`.
pub open spec fn tdiv(a: int, b: int) -> int {
    if (a < 0) == (b < 0) {
        abs(a) / abs(b)
    } else {
        -(abs(a) / abs(b))
    }
}

/// The remainder of `tdiv`, as Rust's `%`.
pub open spec fn trem(a: int, b: int) -> int {
    a - b * tdiv(a, b)
}

/// `i64::saturating_mul`.
pub fn saturating_mul(a: i64, b: i64) -> (r: i64)
    ensures
        r == clamp_i64(a * b),
{
    proof {
        lemma_mul_fits_i128(a as int, b as int);
    }
    let p = (a as i128) * (b as i128);
    if p < i64::MIN as i128 {
        i64::MIN
    } else if p > i64::MAX as i128 {
        i64::MAX
    } else {
        p as i64
    }
}

proof fn lemma_mul_fits_i128(a: int, b: int)
    requires
        i64::MIN <= a <= i64::MAX,
        i64::MIN <= b <= i64::MAX,
    ensures
        -0x4000_0000_0000_0000_0000_0000_0000_0000 <= a * b <= 0x4000_0000_0000_0000_0000_0000_0000_0000,
{
    assert(abs(a * b) == abs(a) * abs(b)) by (nonlinear_arith);
    assert(abs(a) * abs(b) <= 0x8000_0000_0000_0000 * 0x8000_0000_0000_0000) by (nonlinear_arith)
        requires
            0 <= abs(a) <= 0x8000_0000_0000_0000,
            0 <= abs(b) <= 0x8000_0000_0000_0000,
    ;
}

/// `i64::saturating_add`.
pub fn saturating_add(a: i64, b: i64) -> (r: i64)
    ensures
        r == clamp_i64(a + b),
{
    let p = (a as i128) + (b as i128);
    if p < i64::MIN as i128 {
        i64::MIN
    } else if p > i64::MAX as i128 {
        i64::MAX
    } else {
        p as i64
    }
}

/// `i64::saturating_sub`.
pub fn saturating_sub(a: i64, b: i64) -> (r: i64)
    ensures
        r == clamp_i64(a - b),
{
    let p = (a as i128) - (b as i128);
    if p < i64::MIN as i128 {
        i64::MIN
    } else if p > i64::MAX as i128 {
        i64::MAX
    } else {
        p as i64
    }
}

/// `a / b` on `i64`, which Rust defines except for a zero divisor and for
/// `i64::MIN / -1`.
pub fn div_i64(a: i64, b: i64) -> (r: i64)
    requires
        b != 0,
        !(a == i64::MIN && b == -1),
    ensures
        r == tdiv(a as int, b as int),
{
    let x = a as i128;
    let y = b as i128;
    let ax: i128 = if x < 0 {
        -x
    } else {
        x
    };
    let ay: i128 = if y < 0 {
        -y
    } else {
        y
    };
    let q = ax / ay;
    assert(0 <= q <= ax && (ay >= 2 ==> q <= ax / 2) && (ay == 1 ==> q == ax)) by (nonlinear_arith)
        requires
            q == ax / ay,
            ax >= 0,
            ay >= 1,
    ;
    if (x < 0) == (y < 0) {
        q as i64
    } else {
        (-q) as i64
    }
}

/// `a % b` on `i64`, under the same conditions as `div_i64`.
pub fn rem_i64(a: i64, b: i64) -> (r: i64)
    requires
        b != 0,
        !(a == i64::MIN && b == -1),
    ensures
        r == trem(a as int, b as int),
{
    let q = div_i64(a, b);
    proof {
        lemma_mul_fits_i128(q as int, b as int);
    }
    let p = (q as i128) * (b as i128);
    let r = (a as i128) - p;
    assert(abs(r as int) < abs(b as int)) by (nonlinear_arith)
        requires
            q == tdiv(a as int, b as int),
            r == a - q * b,
            b != 0,
    {
        let aa = abs(a as int);
        let ab = abs(b as int);
        assert(aa == ab * (aa / ab) + aa % ab);
        assert(0 <= aa % ab < ab);
        if (a < 0) == (b < 0) {
            assert(q == aa / ab);
        } else {
            assert(q == -(aa / ab));
        }
    }
    r as i64
}

} // verus!
