//! Decimal text: the wire grammar writes integers and element counts as
//! decimal digit strings, and reads them back with the grammar of Rust's
//! integer parser (an optional sign, then one or more digits, value in
//! range).
use vstd::prelude::*;

verus! {

/// Ten to the `n`.
pub open spec fn pow10(n: nat) -> nat
    decreases n,
{
    if n == 0 {
        1
    } else {
        10 * pow10((n - 1) as nat)
    }
}

pub open spec fn is_digit(c: u8) -> bool {
    0x30 <= c <= 0x39
}

pub open spec fn all_digits(b: Seq<u8>) -> bool {
    forall|i: int| 0 <= i < b.len() ==> is_digit(#[trigger] b[i])
}

/// The number denoted by a digit string (most significant first).
pub open spec fn digits_val(b: Seq<u8>) -> nat
    decreases b.len(),
{
    if b.len() == 0 {
        0
    } else {
        (digits_val(b.drop_last()) * 10 + (b.last() - 0x30)) as nat
    }
}

/// The shortest decimal digit string denoting `n`.
pub open spec fn dec_digits(n: nat) -> Seq<u8>
    decreases n,
{
    if n < 10 {
        seq![(0x30 + n) as u8]
    } else {
        dec_digits(n / 10).push((0x30 + n % 10) as u8)
    }
}

/// The decimal text of an integer: a `-` sign when negative, then digits.
pub open spec fn dec_int(i: int) -> Seq<u8> {
    if i < 0 {
        seq![0x2du8] + dec_digits((-i) as nat)
    } else {
        dec_digits(i as nat)
    }
}

/// What Rust's `i64` parser accepts and yields: an optional `+` or `-`
/// sign, then one or more decimal digits, denoting a value in `i64` range.
pub open spec fn spec_parse_i64(b: Seq<u8>) -> Option<i64> {
    if b.len() == 0 {
        None
    } else {
        let negative = b[0] == 0x2du8;
        let digs = if b[0] == 0x2du8 || b[0] == 0x2bu8 {
            b.drop_first()
        } else {
            b
        };
        if digs.len() == 0 || !all_digits(digs) {
            None
        } else {
            let magnitude = digits_val(digs) as int;
            let v = if negative {
                -magnitude
            } else {
                magnitude
            };
            if i64::MIN <= v <= i64::MAX {
                Some(v as i64)
            } else {
                None
            }
        }
    }
}

/// Leading zeros do not change the denoted value.
pub proof fn lemma_digits_val_skip_zeros(b: Seq<u8>, k: int)
    requires
        0 <= k <= b.len(),
        forall|i: int| 0 <= i < k ==> b[i] == 0x30u8,
    ensures
        digits_val(b.skip(k)) == digits_val(b),
    decreases b.len(),
{
    if k > 0 && b.len() > 0 {
        if k == b.len() {
            lemma_digits_val_all_zeros(b);
        } else {
            assert(b.skip(k).drop_last() =~= b.drop_last().skip(k));
            assert(b.skip(k).last() == b.last());
            lemma_digits_val_skip_zeros(b.drop_last(), k);
        }
    } else {
        assert(b.skip(0) =~= b);
    }
}

/// A string of zero digits denotes zero.
pub proof fn lemma_digits_val_all_zeros(b: Seq<u8>)
    requires
        forall|i: int| 0 <= i < b.len() ==> b[i] == 0x30u8,
    ensures
        digits_val(b) == 0,
    decreases b.len(),
{
    if b.len() > 0 {
        lemma_digits_val_all_zeros(b.drop_last());
    }
}

/// The decimal text of `n` is all digits, nonempty, and denotes `n`.
pub proof fn lemma_dec_digits_val(n: nat)
    ensures
        all_digits(dec_digits(n)),
        dec_digits(n).len() >= 1,
        digits_val(dec_digits(n)) == n,
        dec_digits(n)[0] != 0x2bu8 && dec_digits(n)[0] != 0x2du8,
    decreases n,
{
    if n < 10 {
        assert(dec_digits(n).drop_last() =~= Seq::<u8>::empty());
        assert(((0x30 + n) as u8) == 0x30 + n);
        assert(dec_digits(n).last() == (0x30 + n) as u8);
        assert(digits_val(Seq::<u8>::empty()) == 0);
        assert(digits_val(dec_digits(n)) == n);
    } else {
        lemma_dec_digits_val(n / 10);
        let d = dec_digits(n / 10);
        assert(dec_digits(n) == d.push((0x30 + n % 10) as u8));
        assert(dec_digits(n).drop_last() =~= d);
        assert(((0x30 + n % 10) as u8) == 0x30 + n % 10);
        assert(digits_val(dec_digits(n)) == (n / 10) * 10 + n % 10);
        assert((n / 10) * 10 + n % 10 == n) by (nonlinear_arith);
        assert forall|i: int| 0 <= i < dec_digits(n).len() implies is_digit(
            #[trigger] dec_digits(n)[i],
        ) by {
            if i < d.len() {
                assert(dec_digits(n)[i] == d[i]);
            }
        }
    }
}

/// Reading back the decimal text of any `i64` yields that value.
pub proof fn lemma_parse_dec_int(v: i64)
    ensures
        spec_parse_i64(dec_int(v as int)) == Some(v),
{
    if v < 0 {
        let m = (-(v as int)) as nat;
        lemma_dec_digits_val(m);
        let b = dec_int(v as int);
        assert(b[0] == 0x2du8);
        assert(b.drop_first() =~= dec_digits(m));
    } else {
        lemma_dec_digits_val(v as nat);
    }
}

/// Decimal digit text never contains a carriage return or line feed.
pub proof fn lemma_dec_digits_no_crlf(n: nat)
    ensures
        forall|i: int| 0 <= i < dec_digits(n).len() ==> dec_digits(n)[i] != 13 && dec_digits(
            n,
        )[i] != 10,
{
    lemma_dec_digits_val(n);
    assert forall|i: int| 0 <= i < dec_digits(n).len() implies dec_digits(n)[i] != 13
        && dec_digits(n)[i] != 10 by {
        assert(is_digit(dec_digits(n)[i]));
    }
}

/// Writes `n` in decimal.
pub fn fmt_u64(n: u64) -> (r: Vec<u8>)
    ensures
        r@ == dec_digits(n as nat),
    decreases n,
{
    if n < 10 {
        let mut r: Vec<u8> = Vec::new();
        r.push(0x30 + (n as u8));
        proof {
            assert(r@ =~= dec_digits(n as nat));
        }
        r
    } else {
        let mut r = fmt_u64(n / 10);
        r.push(0x30 + ((n % 10) as u8));
        r
    }
}

/// Writes `i` in decimal with a sign when negative.
pub fn fmt_i64(i: i64) -> (r: Vec<u8>)
    ensures
        r@ == dec_int(i as int),
{
    if i >= 0 {
        fmt_u64(i as u64)
    } else {
        let mag: u64 = if i == i64::MIN {
            0x8000_0000_0000_0000u64
        } else {
            (-i) as u64
        };
        let mut r: Vec<u8> = Vec::new();
        r.push(0x2du8);
        let mut digs = fmt_u64(mag);
        let mut k: usize = 0;
        while k < digs.len()
            invariant
                k <= digs@.len(),
                digs@ == dec_digits((-(i as int)) as nat),
                r@ =~= seq![0x2du8] + digs@.subrange(0, k as int),
            decreases digs@.len() - k,
        {
            let d = digs[k];
            r.push(d);
            proof {
                assert(r@ =~= seq![0x2du8] + digs@.subrange(0, k + 1 as int));
            }
            k = k + 1;
        }
        proof {
            assert(digs@.subrange(0, digs@.len() as int) =~= digs@);
        }
        r
    }
}

/// Reads a decimal `i64` as Rust's integer parser does.
pub fn parse_i64(b: &[u8]) -> (r: Option<i64>)
    ensures
        r == spec_parse_i64(b@),
{
    if b.len() == 0 {
        return None;
    }
    let negative = b[0] == 0x2du8;
    let start: usize = if b[0] == 0x2du8 || b[0] == 0x2bu8 {
        1
    } else {
        0
    };
    let ghost digs = if b@[0] == 0x2du8 || b@[0] == 0x2bu8 {
        b@.drop_first()
    } else {
        b@
    };
    proof {
        assert(digs =~= b@.skip(start as int));
    }
    if b.len() == start {
        return None;
    }
    // Skip leading zeros so that the significant digit count bounds the
    // magnitude.
    let mut z: usize = start;
    while z < b.len() && b[z] == 0x30u8
        invariant
            start <= z <= b@.len(),
            forall|i: int| start <= i < z ==> b@[i] == 0x30u8,
        decreases b@.len() - z,
    {
        z = z + 1;
    }
    let mut acc: u64 = 0;
    let mut k: usize = z;
    while k < b.len()
        invariant
            start <= z <= k <= b@.len(),
            b@.len() > 0,
            start == (if b@[0] == 0x2du8 || b@[0] == 0x2bu8 { 1int } else { 0int }),
            digs == (if b@[0] == 0x2du8 || b@[0] == 0x2bu8 { b@.drop_first() } else { b@ }),
            digs =~= b@.skip(start as int),
            negative == (b@[0] == 0x2du8),
            forall|i: int| start <= i < z ==> b@[i] == 0x30u8,
            z == b@.len() || b@[z as int] != 0x30u8,
            all_digits(b@.subrange(z as int, k as int)),
            acc == digits_val(b@.subrange(z as int, k as int)),
            acc < pow10((k - z) as nat),
            k - z <= 19,
        decreases b@.len() - k,
    {
        let c = b[k];
        if c < 0x30 || c > 0x39 {
            proof {
                assert(!is_digit(b@[k as int]));
                assert(digs[k - start] == b@[k as int]);
                assert(!all_digits(digs));
            }
            return None;
        }
        if k - z >= 19 {
            proof {
                lemma_overlong_digits_out_of_range(b@, start as int, z as int, digs);
            }
            return None;
        }
        proof {
            let pre = b@.subrange(z as int, k as int);
            assert(b@.subrange(z as int, k + 1 as int).drop_last() =~= pre);
            assert(b@.subrange(z as int, k + 1 as int).last() == b@[k as int]);
            lemma_pow10_mono((k - z) as nat, 18nat);
            assert(pow10(18nat) == 0x0DE0_B6B3_A764_0000u64) by {
                reveal_with_fuel(pow10, 20);
            }
            assert(pow10((k + 1 - z) as nat) == 10 * pow10((k - z) as nat));
            assert(acc * 10 + (c - 0x30) < pow10((k + 1 - z) as nat)) by (nonlinear_arith)
                requires
                    acc < pow10((k - z) as nat),
                    c - 0x30 < 10,
                    pow10((k + 1 - z) as nat) == 10 * pow10((k - z) as nat),
            ;
            assert(acc * 10 + (c - 0x30) <= 0xFFFF_FFFF_FFFF_FFFFu64) by (nonlinear_arith)
                requires
                    acc < pow10((k - z) as nat),
                    pow10((k - z) as nat) <= 0x0DE0_B6B3_A764_0000u64,
                    c - 0x30 < 10,
            ;
        }
        acc = acc * 10 + ((c - 0x30) as u64);
        k = k + 1;
    }
    proof {
        lemma_digits_val_skip_zeros(digs, z - start);
        assert(digs.skip(z - start) =~= b@.subrange(z as int, b@.len() as int));
        assert(digits_val(digs) == acc);
        assert(all_digits(digs)) by {
            assert forall|i: int| 0 <= i < digs.len() implies is_digit(#[trigger] digs[i]) by {
                assert(digs[i] == b@[start + i]);
                if start + i >= z {
                    assert(b@.subrange(z as int, b@.len() as int)[start + i - z] == b@[start + i]);
                }
            }
        }
        assert(digs.len() > 0);
    }
    if negative {
        if acc > 0x8000_0000_0000_0000u64 {
            return None;
        }
        if acc == 0x8000_0000_0000_0000u64 {
            return Some(i64::MIN);
        }
        Some(-(acc as i64))
    } else {
        if acc > 0x7FFF_FFFF_FFFF_FFFFu64 {
            return None;
        }
        Some(acc as i64)
    }
}

/// `pow10` is monotone in the exponent.
pub proof fn lemma_pow10_mono(a: nat, b: nat)
    requires
        a <= b,
    ensures
        pow10(a) <= pow10(b),
    decreases b,
{
    if a < b {
        lemma_pow10_mono(a, (b - 1) as nat);
        assert(pow10(b) == 10 * pow10((b - 1) as nat));
    }
}

/// A digit string with a nonzero leading digit denotes at least ten to
/// one less than its length.
pub proof fn lemma_digits_val_lower(b: Seq<u8>)
    requires
        all_digits(b),
        b.len() > 0,
        b[0] != 0x30u8,
    ensures
        digits_val(b) >= pow10((b.len() - 1) as nat),
    decreases b.len(),
{
    if b.len() == 1 {
        assert(is_digit(b[0]));
    } else {
        assert(b.drop_last()[0] == b[0]);
        assert(all_digits(b.drop_last()));
        lemma_digits_val_lower(b.drop_last());
        assert(digits_val(b.drop_last()) * 10 >= pow10((b.len() - 2) as nat) * 10)
            by (nonlinear_arith)
            requires
                digits_val(b.drop_last()) >= pow10((b.len() - 2) as nat),
        ;
    }
}

/// Twenty or more significant digits put the value out of `i64` range,
/// whatever follows, so the parse yields `None`.
proof fn lemma_overlong_digits_out_of_range(b: Seq<u8>, start: int, z: int, digs: Seq<u8>)
    requires
        0 <= start <= z,
        z + 20 <= b.len(),
        start == (if b[0] == 0x2du8 || b[0] == 0x2bu8 { 1int } else { 0int }),
        digs == (if b[0] == 0x2du8 || b[0] == 0x2bu8 { b.drop_first() } else { b }),
        digs =~= b.skip(start),
        forall|i: int| start <= i < z ==> b[i] == 0x30u8,
        b[z] != 0x30u8,
        all_digits(b.subrange(z, z + 19)),
    ensures
        spec_parse_i64(b) == None::<i64>,
        b.len() > 0,
{
    if all_digits(digs) {
        lemma_digits_val_skip_zeros(digs, z - start);
        let tail = b.subrange(z, b.len() as int);
        assert(digs.skip(z - start) =~= tail);
        assert(all_digits(tail)) by {
            assert forall|i: int| 0 <= i < tail.len() implies is_digit(#[trigger] tail[i]) by {
                assert(tail[i] == digs[z - start + i]);
            }
        }
        assert(tail[0] == b[z]);
        lemma_digits_val_lower(tail);
        lemma_pow10_mono(19nat, (tail.len() - 1) as nat);
        assert(pow10(19nat) == 10_000_000_000_000_000_000) by {
            reveal_with_fuel(pow10, 21);
        }
        assert(digits_val(digs) >= 10_000_000_000_000_000_000);
    } else {
        assert(b.len() > start);
        assert(digs.len() > 0);
    }
}

} // verus!
