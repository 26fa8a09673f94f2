//! Integer text: parsing in the manner of `str::parse` / `from_str_radix`,
//! and decimal formatting.

use vstd::prelude::*;

verus! {

/// Why a text did not parse as an integer.
#[derive(Debug, Clone, Copy, PartialEq, Eq, Structural)]
pub enum IntErrorKind {
    Empty,
    InvalidDigit,
    PosOverflow,
    NegOverflow,
}

/// Value of `c` as a digit in `radix` (2..=36), letters of either case
/// standing for 10 and up.
pub open spec fn digit_value(c: u8, radix: int) -> Option<int> {
    let v: int = if 48 <= c <= 57 {
        c - 48
    } else if 97 <= c <= 122 {
        c - 97 + 10
    } else if 65 <= c <= 90 {
        c - 65 + 10
    } else {
        99
    };
    if v < radix { Some(v) } else { None }
}

/// Reads the digits `d` from left to right, starting from `acc`; a negative
/// number is accumulated downwards.  The first bad digit or the first step
/// that leaves `min..=max` decides the error.
pub open spec fn scan_digits(acc: int, d: Seq<u8>, radix: int, neg: bool, min: int, max: int) -> Result<int, IntErrorKind>
    decreases d.len(),
{
    if d.len() == 0 {
        Ok(acc)
    } else {
        match digit_value(d[0], radix) {
            None => Err(IntErrorKind::InvalidDigit),
            Some(x) => {
                if neg {
                    if acc * radix - x < min {
                        Err(IntErrorKind::NegOverflow)
                    } else {
                        scan_digits(acc * radix - x, d.drop_first(), radix, neg, min, max)
                    }
                } else {
                    if acc * radix + x > max {
                        Err(IntErrorKind::PosOverflow)
                    } else {
                        scan_digits(acc * radix + x, d.drop_first(), radix, neg, min, max)
                    }
                }
            },
        }
    }
}

/// The result of parsing `s` as an integer of range `min..=max` in `radix`:
/// an optional `+` (or `-` when `signed`) followed by at least one digit.
pub open spec fn parse_int_spec(s: Seq<u8>, radix: int, signed: bool, min: int, max: int) -> Result<int, IntErrorKind> {
    if s.len() == 0 {
        Err(IntErrorKind::Empty)
    } else if s.len() == 1 && (s[0] == 43 || s[0] == 45) {
        Err(IntErrorKind::InvalidDigit)
    } else if s[0] == 43 {
        scan_digits(0, s.drop_first(), radix, false, min, max)
    } else if s[0] == 45 && signed {
        scan_digits(0, s.drop_first(), radix, true, min, max)
    } else {
        scan_digits(0, s, radix, false, min, max)
    }
}

pub open spec fn bounded_range(min: int, max: int) -> bool {
    -0x1_0000_0000_0000_0000_0000 <= min <= 0 <= max <= 0x1_0000_0000_0000_0000_0000
}

fn digit_value_exec(c: u8, radix: u32) -> (r: Option<u32>)
    requires
        2 <= radix <= 36,
    ensures
        r matches Some(x) ==> digit_value(c, radix as int) == Some(x as int),
        r is None ==> digit_value(c, radix as int) is None,
{
    let v: u32 = if 48 <= c && c <= 57 {
        (c - 48) as u32
    } else if 97 <= c && c <= 122 {
        (c - 97) as u32 + 10
    } else if 65 <= c && c <= 90 {
        (c - 65) as u32 + 10
    } else {
        99
    };
    if v < radix { Some(v) } else { None }
}

proof fn lemma_scan_drop(acc: int, d: Seq<u8>, i: int, radix: int, neg: bool, min: int, max: int)
    requires
        0 <= i < d.len(),
    ensures
        d.subrange(i, d.len() as int).drop_first() =~= d.subrange(i + 1, d.len() as int),
{
}

/// Parses `s` as an integer of range `min..=max` in `radix`, as `from_str_radix` does.
pub fn parse_int(s: &[u8], radix: u32, signed: bool, min: i128, max: i128) -> (r: Result<i128, IntErrorKind>)
    requires
        2 <= radix <= 36,
        bounded_range(min as int, max as int),
    ensures
        r matches Ok(v) ==> parse_int_spec(s@, radix as int, signed, min as int, max as int) == Ok::<int, IntErrorKind>(v as int),
        r matches Ok(v) ==> min <= v <= max,
        r matches Err(e) ==> parse_int_spec(s@, radix as int, signed, min as int, max as int) == Err::<int, IntErrorKind>(e),
{
    let n = s.len();
    if n == 0 {
        return Err(IntErrorKind::Empty);
    }
    if n == 1 && (s[0] == 43 || s[0] == 45) {
        return Err(IntErrorKind::InvalidDigit);
    }
    let mut i: usize = 0;
    let mut neg = false;
    if s[0] == 43 {
        i = 1;
    } else if s[0] == 45 && signed {
        i = 1;
        neg = true;
    }
    let ghost start = i as int;
    proof {
        assert(s@.subrange(start, n as int) =~= if start == 1 { s@.drop_first() } else { s@ });
        assert(parse_int_spec(s@, radix as int, signed, min as int, max as int)
            == scan_digits(0, s@.subrange(start, n as int), radix as int, neg, min as int, max as int));
    }
    let mut acc: i128 = 0;
    while i < n
        invariant
            n == s@.len(),
            start <= i <= n,
            start == 0 || start == 1,
            2 <= radix <= 36,
            bounded_range(min as int, max as int),
            min <= acc <= max,
            neg ==> acc <= 0,
            !neg ==> acc >= 0,
            parse_int_spec(s@, radix as int, signed, min as int, max as int)
                == scan_digits(0, s@.subrange(start, n as int), radix as int, neg, min as int, max as int),
            scan_digits(0, s@.subrange(start, n as int), radix as int, neg, min as int, max as int)
                == scan_digits(acc as int, s@.subrange(i as int, n as int), radix as int, neg, min as int, max as int),
        decreases n - i,
    {
        proof {
            lemma_scan_drop(acc as int, s@, i as int, radix as int, neg, min as int, max as int);
            assert(s@.subrange(i as int, n as int)[0] == s@[i as int]);
        }
        match digit_value_exec(s[i], radix) {
            None => {
                return Err(IntErrorKind::InvalidDigit);
            },
            Some(x) => {
                let x = x as i128;
                assert(-0x1_0000_0000_0000_0000_0000 * 36 <= acc * (radix as i128) <= 0x1_0000_0000_0000_0000_0000 * 36) by (nonlinear_arith)
                    requires
                        -0x1_0000_0000_0000_0000_0000 <= acc <= 0x1_0000_0000_0000_0000_0000,
                        2 <= radix <= 36;
                assert((acc <= 0 ==> acc * (radix as i128) <= 0) && (acc >= 0 ==> acc * (radix as i128) >= 0)) by (nonlinear_arith)
                    requires
                        2 <= radix <= 36;
                let m = acc * (radix as i128);
                if neg {
                    if m - x < min {
                        return Err(IntErrorKind::NegOverflow);
                    }
                    acc = m - x;
                } else {
                    if m + x > max {
                        return Err(IntErrorKind::PosOverflow);
                    }
                    acc = m + x;
                }
            },
        }
        i = i + 1;
    }
    Ok(acc)
}

/// `w` decimal digits of `n`, zero padded on the left (higher digits dropped).
pub open spec fn padded_digits(n: nat, w: nat) -> Seq<u8>
    decreases w,
{
    if w == 0 {
        seq![]
    } else {
        padded_digits(n / 10, (w - 1) as nat).push((48 + n % 10) as u8)
    }
}

/// Decimal digits of `n` without leading zeros, as `{}` prints it.
pub open spec fn decimal(n: nat) -> Seq<u8>
    decreases n,
{
    if n < 10 {
        seq![(48 + n) as u8]
    } else {
        decimal(n / 10).push((48 + n % 10) as u8)
    }
}

pub open spec fn pow10(w: nat) -> nat
    decreases w,
{
    if w == 0 { 1 } else { 10 * pow10((w - 1) as nat) }
}

pub open spec fn is_digit(c: u8) -> bool {
    48 <= c <= 57
}

/// Appends the `w` zero-padded decimal digits of `n` to `out`.
pub fn push_padded(out: &mut Vec<u8>, n: u64, w: usize)
    ensures
        final(out)@ == old(out)@ + padded_digits(n as nat, w as nat),
    decreases w,
{
    if w == 0 {
        assert(old(out)@ + padded_digits(n as nat, 0) =~= old(out)@);
        return;
    }
    push_padded(out, n / 10, w - 1);
    out.push((48 + n % 10) as u8);
    proof {
        assert(final(out)@ =~= old(out)@ + padded_digits(n as nat, w as nat));
    }
}

/// Appends the decimal digits of `n` to `out`.
pub fn push_decimal(out: &mut Vec<u8>, n: u64)
    ensures
        final(out)@ == old(out)@ + decimal(n as nat),
    decreases n,
{
    if n < 10 {
        out.push((48 + n) as u8);
        proof {
            assert(final(out)@ =~= old(out)@ + decimal(n as nat));
        }
        return;
    }
    push_decimal(out, n / 10);
    out.push((48 + n % 10) as u8);
    proof {
        assert(final(out)@ =~= old(out)@ + decimal(n as nat));
    }
}

pub proof fn lemma_padded_digits_are_digits(n: nat, w: nat)
    ensures
        padded_digits(n, w).len() == w,
        forall|i: int| 0 <= i < w ==> is_digit(#[trigger] padded_digits(n, w)[i]),
    decreases w,
{
    if w > 0 {
        lemma_padded_digits_are_digits(n / 10, (w - 1) as nat);
    }
}

pub proof fn lemma_decimal_are_digits(n: nat)
    ensures
        decimal(n).len() >= 1,
        forall|i: int| 0 <= i < decimal(n).len() ==> is_digit(#[trigger] decimal(n)[i]),
    decreases n,
{
    if n >= 10 {
        lemma_decimal_are_digits(n / 10);
    }
}

/// Scanning one more digit at the end is one more step after the rest.
proof fn lemma_scan_push(acc: int, d: Seq<u8>, c: u8, radix: int, min: int, max: int)
    requires
        scan_digits(acc, d, radix, false, min, max) is Ok,
    ensures
        scan_digits(acc, d.push(c), radix, false, min, max) == scan_digits(
            scan_digits(acc, d, radix, false, min, max).unwrap(),
            seq![c],
            radix,
            false,
            min,
            max,
        ),
    decreases d.len(),
{
    if d.len() == 0 {
        assert(d.push(c) =~= seq![c]);
    } else {
        assert(d.push(c).drop_first() =~= d.drop_first().push(c));
        let x = digit_value(d[0], radix).unwrap();
        lemma_scan_push(acc * radix + x, d.drop_first(), c, radix, min, max);
    }
}

/// Zero-padded decimal digits parse back to their number.
pub proof fn lemma_parse_padded(n: nat, w: nat, min: int, max: int)
    requires
        n < pow10(w),
        n <= max,
    ensures
        scan_digits(0, padded_digits(n, w), 10, false, min, max) == Ok::<int, IntErrorKind>(n as int),
    decreases w,
{
    if w == 0 {
        assert(n == 0);
    } else {
        let w1 = (w - 1) as nat;
        assert(n / 10 < pow10(w1));
        assert(n / 10 <= max);
        lemma_parse_padded(n / 10, w1, min, max);
        lemma_scan_push(0, padded_digits(n / 10, w1), (48 + n % 10) as u8, 10, min, max);
        let c = (48 + n % 10) as u8;
        assert(digit_value(c, 10) == Some((n % 10) as int));
        assert(seq![c].drop_first() =~= Seq::<u8>::empty());
        assert((n / 10) * 10 + n % 10 == n);
        assert(scan_digits(n as int, Seq::<u8>::empty(), 10, false, min, max) == Ok::<int, IntErrorKind>(n as int));
        assert(scan_digits((n / 10) as int, seq![c], 10, false, min, max) == Ok::<int, IntErrorKind>(n as int));
    }
}

proof fn lemma_scan_up_nonneg(acc: int, d: Seq<u8>, radix: int, min: int, max: int)
    requires
        acc >= 0,
        radix >= 2,
    ensures
        scan_digits(acc, d, radix, false, min, max) matches Ok(v) ==> v >= 0,
    decreases d.len(),
{
    if d.len() > 0 {
        if let Some(x) = digit_value(d[0], radix) {
            assert(acc * radix >= 0) by (nonlinear_arith)
                requires acc >= 0, radix >= 2;
            lemma_scan_up_nonneg(acc * radix + x, d.drop_first(), radix, min, max);
        }
    }
}

/// A text without `-` never parses to a negative number.
pub proof fn lemma_parse_without_minus(s: Seq<u8>, radix: int, signed: bool, min: int, max: int)
    requires
        radix >= 2,
        forall|i: int| 0 <= i < s.len() ==> #[trigger] s[i] != 45,
    ensures
        parse_int_spec(s, radix, signed, min, max) matches Ok(v) ==> v >= 0,
{
    lemma_scan_up_nonneg(0, s, radix, min, max);
    if s.len() > 0 {
        lemma_scan_up_nonneg(0, s.drop_first(), radix, min, max);
    }
}

proof fn lemma_scan_range_up(acc: int, d: Seq<u8>, radix: int, min: int, max: int)
    requires
        acc <= max,
    ensures
        scan_digits(acc, d, radix, false, min, max) matches Ok(v) ==> v <= max,
    decreases d.len(),
{
    if d.len() > 0 {
        if let Some(x) = digit_value(d[0], radix) {
            if acc * radix + x <= max {
                lemma_scan_range_up(acc * radix + x, d.drop_first(), radix, min, max);
            }
        }
    }
}

/// An unsigned parse gives a number in `0..=max`.
pub proof fn lemma_parse_int_range(s: Seq<u8>, radix: int, min: int, max: int)
    requires
        min <= 0 <= max,
        radix >= 2,
    ensures
        parse_int_spec(s, radix, false, min, max) matches Ok(v) ==> 0 <= v <= max,
{
    lemma_scan_range_up(0, s, radix, min, max);
    lemma_scan_up_nonneg(0, s, radix, min, max);
    if s.len() > 0 {
        lemma_scan_range_up(0, s.drop_first(), radix, min, max);
        lemma_scan_up_nonneg(0, s.drop_first(), radix, min, max);
    }
}

/// A lowercase hexadecimal digit.
pub open spec fn hex_digit(d: int) -> u8 {
    if d < 10 { (48 + d) as u8 } else { (87 + d) as u8 }
}

/// Lowercase hexadecimal digits of `n` without leading zeros, as `{:x}`
/// prints it.
pub open spec fn hex_text(n: nat) -> Seq<u8>
    decreases n,
{
    if n < 16 {
        seq![hex_digit(n as int)]
    } else {
        hex_text(n / 16).push(hex_digit((n % 16) as int))
    }
}

/// Hexadecimal text is digits and lowercase letters up to `f`, and reads
/// back as its number.
pub proof fn lemma_parse_hex(n: nat, min: int, max: int)
    requires
        n <= max,
    ensures
        hex_text(n).len() >= 1,
        forall|i: int| 0 <= i < hex_text(n).len() ==> {
            let c = #[trigger] hex_text(n)[i];
            (48 <= c <= 57) || (97 <= c <= 102)
        },
        scan_digits(0, hex_text(n), 16, false, min, max) == Ok::<int, IntErrorKind>(n as int),
    decreases n,
{
    if n < 16 {
        let c = hex_digit(n as int);
        assert(digit_value(c, 16) == Some(n as int));
        assert(seq![c].drop_first() =~= Seq::<u8>::empty());
    } else {
        lemma_parse_hex(n / 16, min, max);
        let c = hex_digit((n % 16) as int);
        lemma_scan_push(0, hex_text(n / 16), c, 16, min, max);
        assert(digit_value(c, 16) == Some((n % 16) as int));
        assert(seq![c].drop_first() =~= Seq::<u8>::empty());
        assert((n / 16) * 16 + n % 16 == n);
        assert(scan_digits(n as int, Seq::<u8>::empty(), 16, false, min, max) == Ok::<int, IntErrorKind>(n as int));
        assert(scan_digits((n / 16) as int, seq![c], 16, false, min, max) == Ok::<int, IntErrorKind>(n as int));
        let h = hex_text(n);
        assert forall|i: int| 0 <= i < h.len() implies {
            let c = #[trigger] h[i];
            (48 <= c <= 57) || (97 <= c <= 102)
        } by {
            if i < h.len() - 1 {
                assert(h[i] == hex_text(n / 16)[i]);
            }
        }
    }
}

/// Decimal digits read back as their number.
pub proof fn lemma_parse_decimal(n: nat, min: int, max: int)
    requires
        n <= max,
    ensures
        scan_digits(0, decimal(n), 10, false, min, max) == Ok::<int, IntErrorKind>(n as int),
    decreases n,
{
    if n < 10 {
        let c = (48 + n) as u8;
        assert(digit_value(c, 10) == Some(n as int));
        assert(seq![c].drop_first() =~= Seq::<u8>::empty());
    } else {
        lemma_parse_decimal(n / 10, min, max);
        let c = (48 + n % 10) as u8;
        lemma_scan_push(0, decimal(n / 10), c, 10, min, max);
        assert(digit_value(c, 10) == Some((n % 10) as int));
        assert(seq![c].drop_first() =~= Seq::<u8>::empty());
        assert((n / 10) * 10 + n % 10 == n);
        assert(scan_digits(n as int, Seq::<u8>::empty(), 10, false, min, max) == Ok::<int, IntErrorKind>(n as int));
        assert(scan_digits((n / 10) as int, seq![c], 10, false, min, max) == Ok::<int, IntErrorKind>(n as int));
    }
}

/// An upper-case hexadecimal digit.
pub open spec fn hex_digit_upper(d: int) -> u8 {
    if d < 10 { (48 + d) as u8 } else { (55 + d) as u8 }
}

/// Upper-case hexadecimal digits of `n` without leading zeros, as `{:X}`
/// prints it.
pub open spec fn hex_text_upper(n: nat) -> Seq<u8>
    decreases n,
{
    if n < 16 {
        seq![hex_digit_upper(n as int)]
    } else {
        hex_text_upper(n / 16).push(hex_digit_upper((n % 16) as int))
    }
}

/// Upper-case hexadecimal text is digits and letters up to `F`, and reads
/// back as its number.
pub proof fn lemma_parse_hex_upper(n: nat, min: int, max: int)
    requires
        n <= max,
    ensures
        hex_text_upper(n).len() >= 1,
        forall|i: int| 0 <= i < hex_text_upper(n).len() ==> {
            let c = #[trigger] hex_text_upper(n)[i];
            (48 <= c <= 57) || (65 <= c <= 70)
        },
        scan_digits(0, hex_text_upper(n), 16, false, min, max) == Ok::<int, IntErrorKind>(n as int),
    decreases n,
{
    if n < 16 {
        let c = hex_digit_upper(n as int);
        assert(digit_value(c, 16) == Some(n as int));
        assert(seq![c].drop_first() =~= Seq::<u8>::empty());
    } else {
        lemma_parse_hex_upper(n / 16, min, max);
        let c = hex_digit_upper((n % 16) as int);
        lemma_scan_push(0, hex_text_upper(n / 16), c, 16, min, max);
        assert(digit_value(c, 16) == Some((n % 16) as int));
        assert(seq![c].drop_first() =~= Seq::<u8>::empty());
        assert((n / 16) * 16 + n % 16 == n);
        assert(scan_digits(n as int, Seq::<u8>::empty(), 16, false, min, max) == Ok::<int, IntErrorKind>(n as int));
        assert(scan_digits((n / 16) as int, seq![c], 16, false, min, max) == Ok::<int, IntErrorKind>(n as int));
        let h = hex_text_upper(n);
        assert forall|i: int| 0 <= i < h.len() implies {
            let c = #[trigger] h[i];
            (48 <= c <= 57) || (65 <= c <= 70)
        } by {
            if i < h.len() - 1 {
                assert(h[i] == hex_text_upper(n / 16)[i]);
            }
        }
    }
}

} // verus!
