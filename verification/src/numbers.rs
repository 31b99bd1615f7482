//! Decimal rendering and parsing of signed 64-bit integers over raw bytes.
//!
//! The wire protocol writes integers and length prefixes as ASCII decimal,
//! and string values that counters touch are decimal text as well. Both
//! directions are specified here, together with the round-trip law.

use vstd::prelude::*;

verus! {

/// The byte is an ASCII decimal digit.
pub open spec fn is_digit(b: u8) -> bool {
    48 <= b && b <= 57
}

/// Every byte of the sequence is an ASCII decimal digit.
pub open spec fn all_digits(s: Seq<u8>) -> bool {
    forall|i: int| 0 <= i < s.len() ==> is_digit(#[trigger] s[i])
}

/// Numeric value of a digit sequence, most significant digit first.
pub open spec fn digits_val(s: Seq<u8>) -> int
    decreases s.len(),
{
    if s.len() == 0 {
        0
    } else {
        digits_val(s.drop_last()) * 10 + (s.last() - 48)
    }
}

/// Decimal digits of a non-negative number, most significant first,
/// without leading zeros (zero itself is the single digit `0`).
pub open spec fn dec_digits(n: int) -> Seq<u8>
    decreases n,
{
    if n < 10 {
        seq![(48 + if n >= 0 { n } else { 0 }) as u8]
    } else {
        dec_digits(n / 10).push((48 + n % 10) as u8)
    }
}

/// Decimal rendering of a signed number: a `-` sign when negative,
/// then the digits of its magnitude.
pub open spec fn spec_fmt_int(v: int) -> Seq<u8> {
    if v < 0 {
        seq![45u8] + dec_digits(-v)
    } else {
        dec_digits(v)
    }
}

/// What parsing a decimal integer accepts: an optional `+` or `-` sign
/// followed by at least one digit and nothing else. No range limit.
pub open spec fn spec_parse_int(s: Seq<u8>) -> Option<int> {
    let signed = s.len() > 0 && (s[0] == 43 || s[0] == 45);
    let neg = s.len() > 0 && s[0] == 45;
    let ds = if signed {
        s.drop_first()
    } else {
        s
    };
    if ds.len() > 0 && all_digits(ds) {
        Some(
            if neg {
                -digits_val(ds)
            } else {
                digits_val(ds)
            },
        )
    } else {
        None
    }
}

/// Parsing into a signed 64-bit integer: as `spec_parse_int`, and the
/// value must fit the type, else the parse fails.
pub open spec fn spec_parse_i64(s: Seq<u8>) -> Option<int> {
    match spec_parse_int(s) {
        Some(v) => if i64::MIN <= v && v <= i64::MAX {
            Some(v)
        } else {
            None
        },
        None => None,
    }
}

/// Ten to the `k`-th power.
pub open spec fn pow10(k: nat) -> int
    decreases k,
{
    if k == 0 {
        1
    } else {
        10 * pow10((k - 1) as nat)
    }
}

pub proof fn lemma_pow10_pos(k: nat)
    ensures
        pow10(k) >= 1,
    decreases k,
{
    if k > 0 {
        lemma_pow10_pos((k - 1) as nat);
    }
}

pub proof fn lemma_digits_val_nonneg(s: Seq<u8>)
    requires
        all_digits(s),
    ensures
        digits_val(s) >= 0,
    decreases s.len(),
{
    if s.len() > 0 {
        assert(all_digits(s.drop_last())) by {
            assert(forall|i: int|
                0 <= i < s.len() - 1 ==> s.drop_last()[i] == #[trigger] s[i]);
        }
        lemma_digits_val_nonneg(s.drop_last());
    }
}

/// Splitting a digit sequence at `k` splits its value positionally.
pub proof fn lemma_digits_val_split(s: Seq<u8>, k: int)
    requires
        0 <= k <= s.len(),
    ensures
        digits_val(s) == digits_val(s.take(k)) * pow10((s.len() - k) as nat) + digits_val(
            s.skip(k),
        ),
    decreases s.len() - k,
{
    if k == s.len() {
        assert(s.take(k) =~= s);
        assert(s.skip(k) =~= Seq::<u8>::empty());
    } else {
        let dl = s.drop_last();
        lemma_digits_val_split(dl, k);
        assert(dl.take(k) =~= s.take(k));
        assert(s.skip(k).drop_last() =~= dl.skip(k));
        assert(s.skip(k).last() == s.last());
        assert(s.skip(k).len() == s.len() - k);
        let p = pow10((s.len() - 1 - k) as nat);
        let a = digits_val(s.take(k));
        let b = digits_val(dl.skip(k));
        let d = s.last() - 48;
        assert(digits_val(s) == (a * p + b) * 10 + d);
        assert(pow10((s.len() - k) as nat) == 10 * p);
        assert((a * p + b) * 10 + d == a * (10 * p) + (b * 10 + d)) by (nonlinear_arith);
        assert(digits_val(s.skip(k)) == b * 10 + d);
    }
}

/// Once the value of a digit prefix exceeds a non-negative bound, the
/// value of the whole sequence exceeds it too.
pub proof fn lemma_digits_val_prefix_bound(s: Seq<u8>, k: int, bound: int)
    requires
        0 <= k <= s.len(),
        all_digits(s),
        bound >= 0,
        digits_val(s.take(k)) > bound,
    ensures
        digits_val(s) > bound,
{
    lemma_digits_val_split(s, k);
    let p = pow10((s.len() - k) as nat);
    lemma_pow10_pos((s.len() - k) as nat);
    assert(all_digits(s.skip(k))) by {
        assert(forall|i: int|
            0 <= i < s.len() - k ==> s.skip(k)[i] == #[trigger] s[i + k]);
    }
    lemma_digits_val_nonneg(s.skip(k));
    let a = digits_val(s.take(k));
    assert(a * p >= a) by (nonlinear_arith)
        requires
            a >= 0,
            p >= 1,
    ;
}

pub proof fn lemma_dec_digits_are_digits(n: int)
    requires
        n >= 0,
    ensures
        all_digits(dec_digits(n)),
        dec_digits(n).len() >= 1,
    decreases n,
{
    if n >= 10 {
        lemma_dec_digits_are_digits(n / 10);
        let s = dec_digits(n / 10);
        assert(dec_digits(n) =~= s.push((48 + n % 10) as u8));
        assert(forall|i: int|
            0 <= i < s.len() ==> dec_digits(n)[i] == #[trigger] s[i]);
    }
}

/// Reading back the digits of `n` yields `n`.
pub proof fn lemma_digits_val_of_dec_digits(n: int)
    requires
        n >= 0,
    ensures
        digits_val(dec_digits(n)) == n,
    decreases n,
{
    if n < 10 {
        let s = dec_digits(n);
        assert(s == seq![(48 + n) as u8]);
        assert(s.drop_last() =~= Seq::<u8>::empty());
        assert(digits_val(Seq::<u8>::empty()) == 0);
        assert(digits_val(s) == 0 * 10 + (s.last() - 48));
    } else {
        lemma_digits_val_of_dec_digits(n / 10);
        let s = dec_digits(n / 10).push((48 + n % 10) as u8);
        assert(dec_digits(n) == s);
        assert(s.drop_last() =~= dec_digits(n / 10));
        assert(s.last() == (48 + n % 10) as u8);
        assert(s.last() - 48 == n % 10);
        assert(digits_val(s) == digits_val(s.drop_last()) * 10 + (s.last() - 48));
        vstd::arithmetic::div_mod::lemma_fundamental_div_mod(n, 10);
        assert(digits_val(s) == (n / 10) * 10 + n % 10);
    }
}

/// Round trip: rendering a 64-bit value and parsing it back returns the
/// same value.
pub proof fn lemma_parse_fmt_roundtrip(v: int)
    requires
        i64::MIN <= v <= i64::MAX,
    ensures
        spec_parse_i64(spec_fmt_int(v)) == Some(v),
{
    if v < 0 {
        lemma_dec_digits_are_digits(-v);
        lemma_digits_val_of_dec_digits(-v);
        let s = seq![45u8] + dec_digits(-v);
        assert(s[0] == 45);
        assert(s.drop_first() =~= dec_digits(-v));
    } else {
        lemma_dec_digits_are_digits(v);
        lemma_digits_val_of_dec_digits(v);
        let s = dec_digits(v);
        assert(is_digit(s[0]));
    }
}

/// Appends the decimal digits of `n` to `out`.
fn push_digits(n: u64, out: &mut Vec<u8>)
    ensures
        final(out)@ == old(out)@ + dec_digits(n as int),
    decreases n,
{
    if n < 10 {
        out.push((48 + n) as u8);
        assert(out@ =~= old(out)@ + dec_digits(n as int));
    } else {
        push_digits(n / 10, out);
        out.push((48 + (n % 10)) as u8);
        assert(out@ =~= old(out)@ + dec_digits(n as int));
    }
}

/// Renders an unsigned 64-bit integer as ASCII decimal bytes.
pub fn fmt_u64(v: u64) -> (r: Vec<u8>)
    ensures
        r@ == dec_digits(v as int),
{
    let mut out: Vec<u8> = Vec::new();
    push_digits(v, &mut out);
    proof {
        assert(out@ =~= dec_digits(v as int));
    }
    out
}

/// Renders a signed 64-bit integer as ASCII decimal bytes.
pub fn fmt_i64(v: i64) -> (r: Vec<u8>)
    ensures
        r@ == spec_fmt_int(v as int),
{
    let mut out: Vec<u8> = Vec::new();
    if v < 0 {
        out.push(45);
        let m: u64 = if v == i64::MIN {
            9223372036854775808u64
        } else {
            (-v) as u64
        };
        push_digits(m, &mut out);
        assert(out@ =~= seq![45u8] + dec_digits(-(v as int)));
    } else {
        push_digits(v as u64, &mut out);
    }
    out
}

/// Parses ASCII decimal bytes as a signed 64-bit integer; fails exactly
/// when the text is not an optionally signed digit string or the value
/// does not fit.
pub fn parse_i64(s: &[u8]) -> (r: Option<i64>)
    ensures
        match r {
            Some(v) => spec_parse_i64(s@) == Some(v as int),
            None => spec_parse_i64(s@) is None,
        },
{
    let n = s.len();
    let mut i: usize = 0;
    let mut neg: bool = false;
    if n > 0 && (s[0] == 43 || s[0] == 45) {
        neg = s[0] == 45;
        i = 1;
    }
    if i == n {
        return None;
    }
    let ghost ds = if i == 1 {
        s@.drop_first()
    } else {
        s@
    };
    let limit: u64 = if neg {
        9223372036854775808u64
    } else {
        9223372036854775807u64
    };
    let mut acc: u64 = 0;
    let mut j: usize = i;
    while j < n
        invariant
            i <= j <= n,
            n == s@.len(),
            i == 0 || i == 1,
            (i == 1) == (n > 0 && (s@[0] == 43 || s@[0] == 45)),
            neg == (n > 0 && s@[0] == 45),
            i == 1 ==> ds =~= s@.drop_first(),
            i == 0 ==> ds =~= s@,
            ds.len() == n - i,
            ds.len() > 0,
            forall|k: int| 0 <= k < j - i ==> is_digit(#[trigger] ds[k]),
            acc <= limit,
            acc as int == digits_val(ds.take(j - i)),
            limit == 9223372036854775808u64 || limit == 9223372036854775807u64,
            neg ==> limit == 9223372036854775808u64,
            !neg ==> limit == 9223372036854775807u64,
        decreases n - j,
    {
        let b = s[j];
        proof {
            assert(ds[j - i] == s@[j as int]);
        }
        if b < 48 || b > 57 {
            proof {
                assert(!is_digit(ds[j - i]));
                assert(!all_digits(ds));
            }
            return None;
        }
        let d: u64 = (b - 48) as u64;
        proof {
            assert(ds.take(j + 1 - i).drop_last() =~= ds.take(j - i));
            assert(ds.take(j + 1 - i).last() == ds[j - i]);
            assert(digits_val(ds.take(j + 1 - i)) == acc * 10 + d);
        }
        if acc > (limit - d) / 10 {
            // The value read so far already exceeds the representable
            // range; any further digits only grow it.
            proof {
                assert((limit - d) == ((limit - d) / 10) * 10 + (limit - d) % 10);
                assert(acc * 10 + d > limit);
                if all_digits(ds) {
                    lemma_digits_val_prefix_bound(ds, j + 1 - i, limit as int);
                    assert(digits_val(ds) > limit);
                    if neg {
                        assert(-digits_val(ds) < i64::MIN);
                    } else {
                        assert(digits_val(ds) > i64::MAX);
                    }
                }
            }
            return None;
        }
        proof {
            assert((limit - d) == ((limit - d) / 10) * 10 + (limit - d) % 10);
            assert(acc * 10 + d <= limit);
        }
        acc = acc * 10 + d;
        j = j + 1;
    }
    proof {
        assert(ds.take(j - i) =~= ds);
    }
    if neg {
        if acc == 9223372036854775808u64 {
            Some(i64::MIN)
        } else {
            Some(-(acc as i64))
        }
    } else {
        Some(acc as i64)
    }
}

/// Compares two byte vectors for equality of contents.
pub fn bytes_eq(a: &Vec<u8>, b: &Vec<u8>) -> (r: bool)
    ensures
        r == (a@ == b@),
{
    if a.len() != b.len() {
        return false;
    }
    let n = a.len();
    let mut i: usize = 0;
    while i < n
        invariant
            0 <= i <= n,
            n == a@.len(),
            n == b@.len(),
            forall|k: int| 0 <= k < i ==> a@[k] == b@[k],
        decreases n - i,
    {
        if a[i] != b[i] {
            return false;
        }
        i = i + 1;
    }
    proof {
        assert(a@ =~= b@);
    }
    true
}

} // verus!
