use vstd::prelude::*;
use crate::text::after_colon;
use crate::text::bytes_of;
use crate::text::line_bounds;
use crate::text::lines;
use crate::text::number;
use crate::text::numbers;
use crate::text::parse_decimal;
use crate::text::parse_numbers;
use crate::text::split;
use crate::text::split_bounds;
use crate::text::InputError;

verus! {

/// Number of charge times `c` below `n` with which a boat beats `d` in a race of `t`:
/// charging for `c` gives speed `c` for the remaining `t - c`.
pub open spec fn ways_below(t: int, d: int, n: int) -> int
    decreases n,
{
    if n <= 0 {
        0
    } else {
        ways_below(t, d, n - 1) + if (n - 1) * (t - (n - 1)) > d {
            1int
        } else {
            0int
        }
    }
}

/// Number of ways to win a race of time `t` against the record `d`.
pub open spec fn ways(t: int, d: int) -> int {
    ways_below(t, d, t + 1)
}

/// The race times and records of a two-line board.
pub open spec fn board(b: Seq<u8>) -> Option<(Seq<u64>, Seq<u64>)> {
    let ls = lines(b);
    if ls.len() != 2 {
        None
    } else {
        match (after_colon(ls[0]), after_colon(ls[1])) {
            (Some(x), Some(y)) => match (numbers(x), numbers(y)) {
                (Some(ts), Some(ds)) => if ts.len() <= ds.len() {
                    Some((ts, ds))
                } else {
                    None
                },
                _ => None,
            },
            _ => None,
        }
    }
}

/// Product of the ways to win the first `n` races.
pub open spec fn ways_product(ts: Seq<u64>, ds: Seq<u64>, n: int) -> int
    decreases n,
{
    if n <= 0 {
        1
    } else {
        ways_product(ts, ds, n - 1) * ways(ts[n - 1] as int, ds[n - 1] as int)
    }
}

/// How many charge times win a race of time `t` against the record `d`.
fn count_ways(t: u64, d: u64) -> (r: u128)
    ensures
        r == ways(t as int, d as int),
{
    let mut c: u128 = 0;
    let mut n: u128 = 0;
    while c <= t as u128
        invariant
            c <= t + 1,
            n == ways_below(t as int, d as int, c as int),
            n <= c,
        decreases t + 1 - c,
    {
        proof {
            assert(c * (t - c) <= u64::MAX * u64::MAX) by (nonlinear_arith)
                requires
                    0 <= c <= t <= u64::MAX,
            ;
        }
        if c * (t as u128 - c) > d as u128 {
            n = n + 1;
        }
        c = c + 1;
    }
    n
}

/// Reads the numbers after the colon of `b[lo..hi]`.
fn numbers_after_colon(b: &[u8], lo: usize, hi: usize) -> (r: Option<Vec<u64>>)
    requires
        lo <= hi <= b@.len(),
    ensures
        r is Some <==> (after_colon(b@.subrange(lo as int, hi as int)) matches Some(x) && numbers(x) is Some),
        r matches Some(v) ==> v@ == numbers(after_colon(b@.subrange(lo as int, hi as int))->0)->0,
{
    let ps = split_bounds(b, lo, hi, 58);
    if ps.len() != 2 {
        return None;
    }
    let (a, z) = ps[1];
    parse_numbers(b, a, z)
}

proof fn lemma_product_monotone(ts: Seq<u64>, ds: Seq<u64>, n: int, m: int)
    requires
        0 <= n <= m,
        forall|i: int| 0 <= i < m ==> ways(ts[i] as int, ds[i] as int) >= 1,
    ensures
        1 <= ways_product(ts, ds, n) <= ways_product(ts, ds, m),
    decreases m,
{
    if n < m {
        lemma_product_monotone(ts, ds, n, m - 1);
        let p = ways_product(ts, ds, m - 1);
        let w = ways(ts[m - 1] as int, ds[m - 1] as int);
        assert(p <= p * w) by (nonlinear_arith)
            requires
                p >= 1,
                w >= 1,
        ;
    } else if n > 0 {
        lemma_product_monotone(ts, ds, n - 1, n - 1);
        let p = ways_product(ts, ds, n - 1);
        let w = ways(ts[n - 1] as int, ds[n - 1] as int);
        assert(1 <= p * w) by (nonlinear_arith)
            requires
                p >= 1,
                w >= 1,
        ;
    }
}

proof fn lemma_product_zero(ts: Seq<u64>, ds: Seq<u64>, k: int, m: int)
    requires
        0 <= k < m,
        ways(ts[k] as int, ds[k] as int) == 0,
    ensures
        ways_product(ts, ds, m) == 0,
    decreases m,
{
    if k < m - 1 {
        lemma_product_zero(ts, ds, k, m - 1);
    }
}

/// Product, over the races of the board in `input`, of the number of ways to win.
pub fn run_part_1(input: String) -> (r: Result<u64, InputError>)
    ensures
        match board(bytes_of(input@)) {
            None => r == Err::<u64, InputError>(InputError::Malformed),
            Some((ts, ds)) => {
                let p = ways_product(ts, ds, ts.len() as int);
                if p <= u64::MAX {
                    r == Ok::<u64, InputError>(p as u64)
                } else {
                    r == Err::<u64, InputError>(InputError::TooLarge)
                }
            },
        },
{
    let b = input.as_str().as_bytes();
    let ls = line_bounds(b);
    if ls.len() != 2 {
        return Err(InputError::Malformed);
    }
    let (a0, z0) = ls[0];
    let (a1, z1) = ls[1];
    let times = match numbers_after_colon(b, a0, z0) {
        None => {
            return Err(InputError::Malformed);
        },
        Some(v) => v,
    };
    let records = match numbers_after_colon(b, a1, z1) {
        None => {
            return Err(InputError::Malformed);
        },
        Some(v) => v,
    };
    if times.len() > records.len() {
        return Err(InputError::Malformed);
    }
    let ghost ts = times@;
    let ghost ds = records@;
    assert(board(bytes_of(input@)) == Some((ts, ds)));
    let mut counts: Vec<u128> = Vec::new();
    let mut k: usize = 0;
    while k < times.len()
        invariant
            k <= times@.len() <= records@.len(),
            ts == times@,
            ds == records@,
            board(bytes_of(input@)) == Some((ts, ds)),
            counts@.len() == k,
            forall|i: int| 0 <= i < k ==> counts@[i] == ways(ts[i] as int, ds[i] as int),
        decreases times@.len() - k,
    {
        let c = count_ways(times[k], records[k]);
        counts.push(c);
        k = k + 1;
    }
    let mut k: usize = 0;
    while k < counts.len()
        invariant
            k <= counts@.len() == ts.len(),
            forall|i: int| 0 <= i < ts.len() ==> counts@[i] == ways(ts[i] as int, ds[i] as int),
            forall|i: int| 0 <= i < k ==> counts@[i] >= 1,
            board(bytes_of(input@)) == Some((ts, ds)),
        decreases counts@.len() - k,
    {
        if counts[k] == 0 {
            proof {
                lemma_product_zero(ts, ds, k as int, ts.len() as int);
            }
            return Ok(0);
        }
        k = k + 1;
    }
    let mut p: u64 = 1;
    let mut k: usize = 0;
    while k < counts.len()
        invariant
            k <= counts@.len() == ts.len(),
            forall|i: int| 0 <= i < ts.len() ==> counts@[i] == ways(ts[i] as int, ds[i] as int),
            forall|i: int| 0 <= i < ts.len() ==> counts@[i] >= 1,
            p == ways_product(ts, ds, k as int),
            board(bytes_of(input@)) == Some((ts, ds)),
        decreases counts@.len() - k,
    {
        let c = counts[k];
        proof {
            assert forall|i: int| 0 <= i < ts.len() implies ways(ts[i] as int, ds[i] as int) >= 1 by {
                assert(counts@[i] >= 1);
            }
        }
        let big = if c > 0xffff_ffff_ffff_ffff {
            true
        } else {
            assert((p as int) * (c as int) <= u128::MAX) by (nonlinear_arith)
                requires
                    0 <= p <= u64::MAX,
                    0 <= c <= u64::MAX,
            ;
            (p as u128) * c > 0xffff_ffff_ffff_ffff
        };
        if big {
            proof {
                lemma_product_monotone(ts, ds, k + 1, ts.len() as int);
                assert(ways_product(ts, ds, k + 1) == p * c);
                if c > u64::MAX {
                    assert(p * c >= c) by (nonlinear_arith)
                        requires
                            p >= 1,
                            c >= 1,
                    ;
                }
            }
            return Err(InputError::TooLarge);
        }
        p = p * (c as u64);
        k = k + 1;
    }
    Ok(p)
}

/// The digits of `s`, with its spaces removed.
pub open spec fn squeeze(s: Seq<u8>) -> Seq<u8>
    decreases s.len(),
{
    if s.len() == 0 {
        seq![]
    } else if s.last() == 32 {
        squeeze(s.drop_last())
    } else {
        squeeze(s.drop_last()).push(s.last())
    }
}

/// The single race of a board whose numbers are read with their spaces removed.
pub open spec fn kerned_race(b: Seq<u8>) -> Option<(u64, u64)> {
    let ls = lines(b);
    if ls.len() != 2 {
        None
    } else {
        match (after_colon(ls[0]), after_colon(ls[1])) {
            (Some(x), Some(y)) => match (number(squeeze(x)), number(squeeze(y))) {
                (Some(t), Some(d)) => Some((t, d)),
                _ => None,
            },
            _ => None,
        }
    }
}

/// Reads the number after the colon of `b[lo..hi]`, ignoring spaces.
fn kerned_number(b: &[u8], lo: usize, hi: usize) -> (r: Option<u64>)
    requires
        lo <= hi <= b@.len(),
    ensures
        r is Some <==> (after_colon(b@.subrange(lo as int, hi as int)) matches Some(x) && number(squeeze(x)) is Some),
        r matches Some(v) ==> v == number(squeeze(after_colon(b@.subrange(lo as int, hi as int))->0))->0,
{
    let ps = split_bounds(b, lo, hi, 58);
    if ps.len() != 2 {
        return None;
    }
    let (a, z) = ps[1];
    let mut digits: Vec<u8> = Vec::new();
    let mut i = a;
    while i < z
        invariant
            a <= i <= z <= b@.len(),
            digits@ == squeeze(b@.subrange(a as int, i as int)),
        decreases z - i,
    {
        assert(b@.subrange(a as int, i + 1).drop_last() =~= b@.subrange(a as int, i as int));
        if b[i] != 32 {
            digits.push(b[i]);
        }
        i = i + 1;
    }
    let n = digits.len();
    assert(digits@.subrange(0, n as int) =~= digits@);
    parse_decimal(digits.as_slice(), 0, n)
}

/// Number of ways to win the one race that the board in `input` describes once the
/// spaces between its digits are removed.
pub fn run_part_2(input: String) -> (r: Result<u64, InputError>)
    ensures
        match kerned_race(bytes_of(input@)) {
            None => r == Err::<u64, InputError>(InputError::Malformed),
            Some((t, d)) => if ways(t as int, d as int) <= u64::MAX {
                r == Ok::<u64, InputError>(ways(t as int, d as int) as u64)
            } else {
                r == Err::<u64, InputError>(InputError::TooLarge)
            },
        },
{
    let b = input.as_str().as_bytes();
    let ls = line_bounds(b);
    if ls.len() != 2 {
        return Err(InputError::Malformed);
    }
    let (a0, z0) = ls[0];
    let (a1, z1) = ls[1];
    let t = match kerned_number(b, a0, z0) {
        None => {
            return Err(InputError::Malformed);
        },
        Some(v) => v,
    };
    let d = match kerned_number(b, a1, z1) {
        None => {
            return Err(InputError::Malformed);
        },
        Some(v) => v,
    };
    let c = count_ways(t, d);
    if c > 0xffff_ffff_ffff_ffff {
        Err(InputError::TooLarge)
    } else {
        Ok(c as u64)
    }
}

} // verus!
