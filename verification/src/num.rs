//! Decimal rendering of the integers that appear in storage paths,
//! record rows and status documents, with the arithmetic facts that
//! make the renderings invertible.

use vstd::prelude::*;

verus! {

/// The ASCII byte of one decimal digit.
pub open spec fn digit(d: int) -> u8 {
    (d % 10 + 48) as u8
}

/// Four-digit zero-padded decimal rendering, as used for years.
pub open spec fn dec4(n: int) -> Seq<u8> {
    seq![digit(n / 1000), digit(n / 100), digit(n / 10), digit(n)]
}

/// Two-digit zero-padded decimal rendering, as used for months.
pub open spec fn dec2(n: int) -> Seq<u8> {
    seq![digit(n / 10), digit(n)]
}

/// Minimal decimal rendering of a non-negative number, no leading
/// zeros except for the number zero itself.
pub open spec fn dec(n: int) -> Seq<u8>
    decreases n,
{
    if n <= 0 {
        seq![48u8]
    } else if n < 10 {
        seq![digit(n)]
    } else {
        dec(n / 10).push(digit(n))
    }
}

/// Decimal rendering of a possibly negative number.
pub open spec fn dec_signed(n: int) -> Seq<u8> {
    if n < 0 {
        seq![45u8] + dec(-n)
    } else {
        dec(n)
    }
}

/// A four-digit rendering determines its value.
pub proof fn lemma_dec4_value(n: int)
    requires
        0 <= n <= 9999,
    ensures
        (n / 1000 % 10) * 1000 + (n / 100 % 10) * 100 + (n / 10 % 10) * 10 + n % 10 == n,
        n / 1000 % 10 == n / 1000,
{
    assert((n / 1000 % 10) * 1000 + (n / 100 % 10) * 100 + (n / 10 % 10) * 10 + n % 10 == n
        && n / 1000 % 10 == n / 1000) by (nonlinear_arith)
        requires 0 <= n <= 9999;
}

/// Four digits determine the four-digit rendering of their value.
pub proof fn lemma_dec4_digits(d0: int, d1: int, d2: int, d3: int)
    requires
        0 <= d0 <= 9,
        0 <= d1 <= 9,
        0 <= d2 <= 9,
        0 <= d3 <= 9,
    ensures
        0 <= d0 * 1000 + d1 * 100 + d2 * 10 + d3 <= 9999,
        (d0 * 1000 + d1 * 100 + d2 * 10 + d3) / 1000 % 10 == d0,
        (d0 * 1000 + d1 * 100 + d2 * 10 + d3) / 100 % 10 == d1,
        (d0 * 1000 + d1 * 100 + d2 * 10 + d3) / 10 % 10 == d2,
        (d0 * 1000 + d1 * 100 + d2 * 10 + d3) % 10 == d3,
{
    let v = d0 * 1000 + d1 * 100 + d2 * 10 + d3;
    assert(0 <= v <= 9999) by (nonlinear_arith)
        requires 0 <= d0 <= 9 && 0 <= d1 <= 9 && 0 <= d2 <= 9 && 0 <= d3 <= 9
            && v == d0 * 1000 + d1 * 100 + d2 * 10 + d3;
    assert(v % 10 == d3 && v / 10 == d0 * 100 + d1 * 10 + d2) by (nonlinear_arith)
        requires 0 <= d0 <= 9 && 0 <= d1 <= 9 && 0 <= d2 <= 9 && 0 <= d3 <= 9
            && v == d0 * 1000 + d1 * 100 + d2 * 10 + d3;
    let w = d0 * 100 + d1 * 10 + d2;
    assert(w % 10 == d2 && w / 10 == d0 * 10 + d1) by (nonlinear_arith)
        requires 0 <= d0 <= 9 && 0 <= d1 <= 9 && 0 <= d2 <= 9 && w == d0 * 100 + d1 * 10 + d2;
    let x = d0 * 10 + d1;
    assert(x % 10 == d1 && x / 10 == d0) by (nonlinear_arith)
        requires 0 <= d0 <= 9 && 0 <= d1 <= 9 && x == d0 * 10 + d1;
    assert(v / 100 == x && v / 1000 == d0) by (nonlinear_arith)
        requires v / 10 == w && w / 10 == x && x / 10 == d0 && w == d0 * 100 + d1 * 10 + d2
            && x == d0 * 10 + d1 && 0 <= d0 <= 9 && 0 <= d1 <= 9 && 0 <= d2 <= 9 && 0 <= v;
    assert(d0 % 10 == d0 && d1 % 10 == d1 && d2 % 10 == d2 && d3 % 10 == d3);
}

/// A two-digit rendering determines its value, and conversely.
pub proof fn lemma_dec2_value(n: int)
    requires
        0 <= n <= 99,
    ensures
        (n / 10 % 10) * 10 + n % 10 == n,
        n / 10 % 10 == n / 10,
{
    assert((n / 10 % 10) * 10 + n % 10 == n && n / 10 % 10 == n / 10) by (nonlinear_arith)
        requires 0 <= n <= 99;
}

pub proof fn lemma_dec2_digits(d0: int, d1: int)
    requires
        0 <= d0 <= 9,
        0 <= d1 <= 9,
    ensures
        0 <= d0 * 10 + d1 <= 99,
        (d0 * 10 + d1) / 10 % 10 == d0,
        (d0 * 10 + d1) % 10 == d1,
{
    assert(0 <= d0 * 10 + d1 <= 99 && (d0 * 10 + d1) / 10 % 10 == d0 && (d0 * 10 + d1) % 10 == d1)
        by (nonlinear_arith)
        requires 0 <= d0 <= 9 && 0 <= d1 <= 9;
}

/// Every byte of a fixed-width rendering is an ASCII digit.
pub proof fn lemma_dec4_is_digits(n: int)
    ensures
        forall|j: int| 0 <= j < 4 ==> 48 <= #[trigger] dec4(n)[j] <= 57,
{
}

pub proof fn lemma_dec2_is_digits(n: int)
    ensures
        forall|j: int| 0 <= j < 2 ==> 48 <= #[trigger] dec2(n)[j] <= 57,
{
}

/// Appends the four-digit rendering of `n` to `out`.
pub fn push_dec4(out: &mut Vec<u8>, n: u16)
    requires
        n <= 9999,
    ensures
        final(out)@ == old(out)@ + dec4(n as int),
{
    out.push((n / 1000 % 10) as u8 + 48);
    out.push((n / 100 % 10) as u8 + 48);
    out.push((n / 10 % 10) as u8 + 48);
    out.push((n % 10) as u8 + 48);
    proof {
        assert(out@ =~= old(out)@ + dec4(n as int));
    }
}

/// Appends the two-digit rendering of `n` to `out`.
pub fn push_dec2(out: &mut Vec<u8>, n: u8)
    requires
        n <= 99,
    ensures
        final(out)@ == old(out)@ + dec2(n as int),
{
    out.push((n / 10 % 10) + 48);
    out.push((n % 10) + 48);
    proof {
        assert(out@ =~= old(out)@ + dec2(n as int));
    }
}

/// Appends the minimal decimal rendering of `n` to `out`.
pub fn push_dec_u64(out: &mut Vec<u8>, n: u64)
    ensures
        final(out)@ == old(out)@ + dec(n as int),
    decreases n,
{
    if n >= 10 {
        push_dec_u64(out, n / 10);
    }
    out.push((n % 10) as u8 + 48);
    proof {
        if n >= 10 {
            assert(out@ =~= old(out)@ + dec(n as int));
        } else {
            assert(out@ =~= old(out)@ + dec(n as int));
        }
    }
}

/// Appends the decimal rendering of `n`, with a leading minus sign for
/// negative values.
pub fn push_dec_i64(out: &mut Vec<u8>, n: i64)
    requires
        n > i64::MIN,
    ensures
        final(out)@ == old(out)@ + dec_signed(n as int),
{
    if n < 0 {
        out.push(45);
        let ghost mid = out@;
        push_dec_u64(out, (-n) as u64);
        proof {
            assert(out@ =~= old(out)@ + dec_signed(n as int));
        }
    } else {
        push_dec_u64(out, n as u64);
    }
}

/// Reads the four bytes at `i` as a four-digit decimal number.
///
/// Succeeds exactly on the renderings that `dec4` produces for values
/// up to 9999, and then returns the rendered value.
pub fn parse_dec4(p: &Vec<u8>, i: usize) -> (r: Option<u16>)
    requires
        i + 4 <= p@.len(),
    ensures
        match r {
            Some(n) => n <= 9999 && p@.subrange(i as int, i + 4) == dec4(n as int),
            None => forall|n: int| 0 <= n <= 9999 ==> p@.subrange(i as int, i + 4) != dec4(n),
        },
{
    let len = p.len();
    let b0 = p[i];
    let b1 = p[i + 1];
    let b2 = p[i + 2];
    let b3 = p[i + 3];
    if 48 <= b0 && b0 <= 57 && 48 <= b1 && b1 <= 57 && 48 <= b2 && b2 <= 57 && 48 <= b3 && b3 <= 57 {
        let n: u16 = (b0 - 48) as u16 * 1000 + (b1 - 48) as u16 * 100 + (b2 - 48) as u16 * 10 + (b3
            - 48) as u16;
        proof {
            lemma_dec4_digits((b0 - 48) as int, (b1 - 48) as int, (b2 - 48) as int, (b3 - 48) as int);
            assert(p@.subrange(i as int, i + 4) =~= dec4(n as int));
        }
        Some(n)
    } else {
        proof {
            assert forall|n: int| 0 <= n <= 9999 implies p@.subrange(i as int, i + 4) != dec4(n) by {
                lemma_dec4_is_digits(n);
                if p@.subrange(i as int, i + 4) == dec4(n) {
                    assert(p@[i as int] == dec4(n)[0]);
                    assert(p@[i + 1] == dec4(n)[1]);
                    assert(p@[i + 2] == dec4(n)[2]);
                    assert(p@[i + 3] == dec4(n)[3]);
                }
            }
        }
        None
    }
}

/// Reads the two bytes at `i` as a two-digit decimal number.
pub fn parse_dec2(p: &Vec<u8>, i: usize) -> (r: Option<u8>)
    requires
        i + 2 <= p@.len(),
    ensures
        match r {
            Some(n) => n <= 99 && p@.subrange(i as int, i + 2) == dec2(n as int),
            None => forall|n: int| 0 <= n <= 99 ==> p@.subrange(i as int, i + 2) != dec2(n),
        },
{
    let len = p.len();
    let b0 = p[i];
    let b1 = p[i + 1];
    if 48 <= b0 && b0 <= 57 && 48 <= b1 && b1 <= 57 {
        let n: u8 = (b0 - 48) * 10 + (b1 - 48);
        proof {
            lemma_dec2_digits((b0 - 48) as int, (b1 - 48) as int);
            assert(p@.subrange(i as int, i + 2) =~= dec2(n as int));
        }
        Some(n)
    } else {
        proof {
            assert forall|n: int| 0 <= n <= 99 implies p@.subrange(i as int, i + 2) != dec2(n) by {
                lemma_dec2_is_digits(n);
                if p@.subrange(i as int, i + 2) == dec2(n) {
                    assert(p@[i as int] == dec2(n)[0]);
                    assert(p@[i + 1] == dec2(n)[1]);
                }
            }
        }
        None
    }
}

/// Whether every byte of a string is an ASCII digit.
pub open spec fn all_digits(ds: Seq<u8>) -> bool {
    forall|i: int| 0 <= i < ds.len() ==> 48 <= #[trigger] ds[i] <= 57
}

/// The numeric value of a run of ASCII digits.
pub open spec fn val_of(ds: Seq<u8>) -> int
    decreases ds.len(),
{
    if ds.len() == 0 {
        0
    } else {
        val_of(ds.drop_last()) * 10 + (ds.last() - 48)
    }
}

/// A minimal rendering consists of digits, at least one.
pub proof fn lemma_dec_is_digits(n: int)
    requires
        n >= 0,
    ensures
        all_digits(dec(n)),
        dec(n).len() >= 1,
    decreases n,
{
    if n >= 10 {
        lemma_dec_is_digits(n / 10);
        assert forall|i: int| 0 <= i < dec(n).len() implies 48 <= #[trigger] dec(n)[i] <= 57 by {
            if i < dec(n / 10).len() {
                assert(dec(n)[i] == dec(n / 10)[i]);
            }
        }
    }
}

/// The value of a minimal rendering is the rendered number.
pub proof fn lemma_val_of_dec(n: int)
    requires
        n >= 0,
    ensures
        val_of(dec(n)) == n,
    decreases n,
{
    assert(0 <= n % 10 < 10) by (nonlinear_arith)
        requires n >= 0;
    assert(digit(n) == n % 10 + 48);
    if n < 10 {
        assert(dec(n).drop_last() =~= Seq::<u8>::empty());
        assert(val_of(Seq::<u8>::empty()) == 0);
        assert(n % 10 == n) by (nonlinear_arith)
            requires 0 <= n < 10;
        assert(val_of(dec(n)) == n);
    } else {
        lemma_val_of_dec(n / 10);
        assert(dec(n).drop_last() =~= dec(n / 10));
        assert(dec(n).last() == digit(n));
        assert(val_of(dec(n)) == val_of(dec(n / 10)) * 10 + (digit(n) - 48));
        assert(n / 10 * 10 + n % 10 == n) by (nonlinear_arith)
            requires n >= 10;
    }
}

/// Digit runs have non-negative values.
pub proof fn lemma_val_of_nonneg(ds: Seq<u8>)
    requires
        all_digits(ds),
    ensures
        val_of(ds) >= 0,
    decreases ds.len(),
{
    if ds.len() > 0 {
        lemma_val_of_nonneg(ds.drop_last());
    }
}

/// A prefix of a digit run is worth no more than the whole run.
pub proof fn lemma_val_of_take(ds: Seq<u8>, k: int)
    requires
        all_digits(ds),
        0 <= k <= ds.len(),
    ensures
        val_of(ds.take(k)) <= val_of(ds),
        val_of(ds.take(k)) >= 0,
    decreases ds.len() - k,
{
    lemma_val_of_nonneg(ds.take(k));
    if k < ds.len() {
        lemma_val_of_take(ds, k + 1);
        assert(ds.take(k + 1).drop_last() =~= ds.take(k));
        assert(val_of(ds.take(k + 1)) == val_of(ds.take(k)) * 10 + (ds[k] - 48));
    } else {
        assert(ds.take(k) =~= ds);
    }
}

/// Distinct values have distinct four-digit renderings.
pub proof fn lemma_dec4_injective(a: int, b: int)
    requires
        0 <= a <= 9999,
        0 <= b <= 9999,
        dec4(a) == dec4(b),
    ensures
        a == b,
{
    lemma_dec4_value(a);
    lemma_dec4_value(b);
    assert(dec4(a)[0] == dec4(b)[0]);
    assert(dec4(a)[1] == dec4(b)[1]);
    assert(dec4(a)[2] == dec4(b)[2]);
    assert(dec4(a)[3] == dec4(b)[3]);
}

/// Distinct values have distinct two-digit renderings.
pub proof fn lemma_dec2_injective(a: int, b: int)
    requires
        0 <= a <= 99,
        0 <= b <= 99,
        dec2(a) == dec2(b),
    ensures
        a == b,
{
    lemma_dec2_value(a);
    lemma_dec2_value(b);
    assert(dec2(a)[0] == dec2(b)[0]);
    assert(dec2(a)[1] == dec2(b)[1]);
}

} // verus!
