use vstd::prelude::*;
use crate::text::bytes_of;
use crate::text::line_bounds;
use crate::text::lines;
use crate::text::number;
use crate::text::parse_decimal;
use crate::text::split;
use crate::text::split_bounds;
use crate::text::InputError;

verus! {

/// A decimal integer with an optional leading minus sign.
pub open spec fn signed(f: Seq<u8>) -> Option<int> {
    if f.len() > 0 && f[0] == 45 {
        match number(f.drop_first()) {
            Some(n) => Some(-(n as int)),
            None => None,
        }
    } else {
        match number(f) {
            Some(n) => Some(n as int),
            None => None,
        }
    }
}

/// The integers written in the pieces `ps`.
pub open spec fn values_of(ps: Seq<Seq<u8>>) -> Option<Seq<int>>
    decreases ps.len(),
{
    if ps.len() == 0 {
        Some(seq![])
    } else {
        match (values_of(ps.drop_last()), signed(ps.last())) {
            (Some(vs), Some(v)) => Some(vs.push(v)),
            _ => None,
        }
    }
}

/// The history on a line: integers separated by single spaces.
pub open spec fn history(l: Seq<u8>) -> Option<Seq<int>> {
    values_of(split(l, 32))
}

/// Differences between consecutive values.
pub open spec fn diffs(s: Seq<int>) -> Seq<int> {
    if s.len() == 0 {
        seq![]
    } else {
        Seq::new((s.len() - 1) as nat, |i: int| s[i + 1] - s[i])
    }
}

pub open spec fn all_zero(s: Seq<int>) -> bool {
    forall|i: int| 0 <= i < s.len() ==> s[i] == 0
}

/// The value that follows the history `s`.
pub open spec fn next_value(s: Seq<int>) -> int
    decreases s.len(),
{
    if all_zero(s) {
        0
    } else {
        s.last() + next_value(diffs(s))
    }
}

/// The value that precedes the history `s`.
pub open spec fn prev_value(s: Seq<int>) -> int
    decreases s.len(),
{
    if all_zero(s) {
        0
    } else {
        s[0] - prev_value(diffs(s))
    }
}

/// Sum over the lines of the value that follows (`forward`) or precedes each history.
pub open spec fn extrapolated_sum(ls: Seq<Seq<u8>>, forward: bool) -> Option<int>
    decreases ls.len(),
{
    if ls.len() == 0 {
        Some(0)
    } else {
        match (extrapolated_sum(ls.drop_last(), forward), history(ls.last())) {
            (Some(x), Some(h)) => Some(x + if forward {
                next_value(h)
            } else {
                prev_value(h)
            }),
            _ => None,
        }
    }
}

pub open spec fn in_i128(x: int) -> bool {
    i128::MIN <= x <= i128::MAX
}

/// Extrapolating `s` stays within `i128`: each level of differences and each running sum
/// (`n` of last values, `p` of first values with alternating signs, subtracted next when
/// `neg`).
pub open spec fn steps_fit(s: Seq<int>, n: int, p: int, neg: bool) -> bool
    decreases s.len(),
{
    if all_zero(s) {
        true
    } else {
        let n2 = n + s.last();
        let p2 = if neg {
            p - s[0]
        } else {
            p + s[0]
        };
        &&& in_i128(n2)
        &&& in_i128(p2)
        &&& forall|j: int| 0 <= j < s.len() - 1 ==> in_i128(#[trigger] s[j + 1] - s[j])
        &&& steps_fit(diffs(s), n2, p2, !neg)
    }
}

/// Every history of `ls` extrapolates within `i128`, and so does each running total.
pub open spec fn lines_fit(ls: Seq<Seq<u8>>, forward: bool) -> bool
    decreases ls.len(),
{
    if ls.len() == 0 {
        true
    } else {
        lines_fit(ls.drop_last(), forward) && match (extrapolated_sum(ls, forward), history(ls.last())) {
            (Some(x), Some(h)) => steps_fit(h, 0, 0, false) && in_i128(x),
            _ => true,
        }
    }
}

pub open spec fn ints(v: Seq<i128>) -> Seq<int> {
    Seq::new(v.len(), |i: int| v[i] as int)
}

fn parse_signed(b: &[u8], lo: usize, hi: usize) -> (r: Option<i128>)
    requires
        lo <= hi <= b@.len(),
    ensures
        r is Some <==> signed(b@.subrange(lo as int, hi as int)) is Some,
        r matches Some(v) ==> v as int == signed(b@.subrange(lo as int, hi as int))->0,
{
    let ghost f = b@.subrange(lo as int, hi as int);
    if lo < hi && b[lo] == 45 {
        assert(f.drop_first() =~= b@.subrange(lo + 1, hi as int));
        match parse_decimal(b, lo + 1, hi) {
            Some(n) => Some(-(n as i128)),
            None => None,
        }
    } else {
        match parse_decimal(b, lo, hi) {
            Some(n) => Some(n as i128),
            None => None,
        }
    }
}

fn parse_history(b: &[u8], lo: usize, hi: usize) -> (r: Option<Vec<i128>>)
    requires
        lo <= hi <= b@.len(),
    ensures
        r is Some <==> history(b@.subrange(lo as int, hi as int)) is Some,
        r matches Some(v) ==> ints(v@) == history(b@.subrange(lo as int, hi as int))->0,
{
    let ps = split_bounds(b, lo, hi, 32);
    let ghost all = split(b@.subrange(lo as int, hi as int), 32);
    let mut out: Vec<i128> = Vec::new();
    let mut k: usize = 0;
    while k < ps.len()
        invariant
            k <= ps@.len() == all.len(),
            lo <= hi <= b@.len(),
            all == split(b@.subrange(lo as int, hi as int), 32),
            forall|j: int|
                0 <= j < ps@.len() ==> lo <= (#[trigger] ps@[j]).0 <= ps@[j].1 <= hi && b@.subrange(ps@[j].0 as int, ps@[j].1 as int)
                    == all[j],
            values_of(all.take(k as int)) == Some(ints(out@)),
        decreases ps@.len() - k,
    {
        let (a, z) = ps[k];
        assert(all.take(k + 1).drop_last() =~= all.take(k as int));
        match parse_signed(b, a, z) {
            None => {
                proof {
                    lemma_values_none(all, k as int);
                }
                return None;
            },
            Some(v) => {
                let ghost before = out@;
                out.push(v);
                assert(ints(out@) =~= ints(before).push(v as int));
            },
        }
        k = k + 1;
    }
    assert(all.take(k as int) =~= all);
    Some(out)
}

proof fn lemma_values_none(ps: Seq<Seq<u8>>, k: int)
    requires
        0 <= k < ps.len(),
        signed(ps[k]) is None,
    ensures
        values_of(ps) is None,
    decreases ps.len(),
{
    if k < ps.len() - 1 {
        lemma_values_none(ps.drop_last(), k);
    }
}

/// The values that follow and precede the history `h`; `None` when a step leaves `i128`.
fn extrapolate(h: Vec<i128>) -> (r: Option<(i128, i128)>)
    ensures
        r is Some <==> steps_fit(ints(h@), 0, 0, false),
        r matches Some((n, p)) ==> n == next_value(ints(h@)) && p == prev_value(ints(h@)),
{
    let ghost orig = ints(h@);
    let mut cur = h;
    let mut next: i128 = 0;
    let mut prev: i128 = 0;
    let mut negate = false;
    loop
        invariant
            orig == ints(h@),
            steps_fit(orig, 0, 0, false) == steps_fit(ints(cur@), next as int, prev as int, negate),
            next_value(orig) == next + next_value(ints(cur@)),
            prev_value(orig) == prev + if negate {
                -prev_value(ints(cur@))
            } else {
                prev_value(ints(cur@))
            },
        decreases cur@.len(),
    {
        let mut zero = true;
        let mut i: usize = 0;
        while i < cur.len()
            invariant
                i <= cur@.len(),
                zero == (forall|j: int| 0 <= j < i ==> cur@[j] == 0),
            decreases cur@.len() - i,
        {
            if cur[i] != 0 {
                zero = false;
            }
            i = i + 1;
        }
        if zero {
            assert(all_zero(ints(cur@)));
            return Some((next, prev));
        }
        let n = cur.len();
        proof {
            let j = choose|j: int| 0 <= j < cur@.len() && cur@[j] != 0;
            assert(ints(cur@)[j] != 0);
            assert(!all_zero(ints(cur@)));
        }
        let ghost n0 = next as int;
        let ghost p0 = prev as int;
        let ghost neg0 = negate;
        let last = cur[n - 1];
        let first = cur[0];
        assert(ints(cur@).last() == last as int);
        assert(ints(cur@)[0] == first as int);
        next = match next.checked_add(last) {
            Some(v) => v,
            None => {
                return None;
            },
        };
        prev = if negate {
            match prev.checked_sub(first) {
                Some(v) => v,
                None => {
                    return None;
                },
            }
        } else {
            match prev.checked_add(first) {
                Some(v) => v,
                None => {
                    return None;
                },
            }
        };
        negate = !negate;
        let ghost fits_here = steps_fit(orig, 0, 0, false);
        assert(fits_here == steps_fit(ints(cur@), n0, p0, neg0));
        let mut d: Vec<i128> = Vec::new();
        let mut i: usize = 0;
        while i + 1 < n
            invariant
                n == cur@.len(),
                n >= 1,
                fits_here == steps_fit(orig, 0, 0, false),
                orig == ints(h@),
                fits_here ==> forall|j: int| 0 <= j < ints(cur@).len() - 1 ==> in_i128(
                    #[trigger] ints(cur@)[j + 1] - ints(cur@)[j],
                ),
                i + 1 <= n,
                d@.len() == i,
                forall|j: int| 0 <= j < i ==> d@[j] == cur@[j + 1] - cur@[j],
            decreases n - i,
        {
            match cur[i + 1].checked_sub(cur[i]) {
                Some(v) => {
                    d.push(v);
                },
                None => {
                    assert(!in_i128(ints(cur@)[i + 1] - ints(cur@)[i as int]));
                    return None;
                },
            }
            i = i + 1;
        }
        assert(ints(d@) =~= diffs(ints(cur@)));
        assert forall|j: int| 0 <= j < ints(cur@).len() - 1 implies in_i128(#[trigger] ints(cur@)[j + 1] - ints(cur@)[j]) by {
            assert(d@[j] == cur@[j + 1] - cur@[j]);
        }
        cur = d;
    }
}

fn extrapolated_total(input: &String, forward: bool) -> (r: Result<i64, InputError>)
    ensures
        extrapolated_sum(lines(bytes_of(input@)), forward) is None <==> r == Err::<i64, InputError>(InputError::Malformed),
        extrapolated_sum(lines(bytes_of(input@)), forward) matches Some(v) ==> if lines_fit(lines(bytes_of(input@)), forward)
            && i64::MIN <= v <= i64::MAX {
            r == Ok::<i64, InputError>(v as i64)
        } else {
            r == Err::<i64, InputError>(InputError::TooLarge)
        },
{
    let b = input.as_str().as_bytes();
    let ls = line_bounds(b);
    let ghost all = lines(b@);
    let mut total: i128 = 0;
    let mut failed = false;
    let mut k: usize = 0;
    while k < ls.len()
        invariant
            k <= ls@.len() == all.len(),
            all == lines(b@),
            b@ == bytes_of(input@),
            forall|j: int|
                0 <= j < ls@.len() ==> (#[trigger] ls@[j]).0 <= ls@[j].1 <= b@.len() && b@.subrange(ls@[j].0 as int, ls@[j].1 as int)
                    == all[j],
            !failed ==> extrapolated_sum(all.take(k as int), forward) == Some(total as int),
            failed == !lines_fit(all.take(k as int), forward),
            extrapolated_sum(all.take(k as int), forward) is Some,
        decreases ls@.len() - k,
    {
        let (lo, hi) = ls[k];
        assert(all.take(k + 1).drop_last() =~= all.take(k as int));
        match parse_history(b, lo, hi) {
            None => {
                proof {
                    assert(b@.subrange(lo as int, hi as int) == all[k as int]);
                    lemma_sum_none(all, k as int, forward);
                }
                return Err(InputError::Malformed);
            },
            Some(h) => {
                match extrapolate(h) {
                    Some((n, p)) => {
                        let v = if forward {
                            n
                        } else {
                            p
                        };
                        match total.checked_add(v) {
                            Some(t) => {
                                total = t;
                            },
                            None => {
                                failed = true;
                            },
                        }
                    },
                    None => {
                        failed = true;
                    },
                }
            },
        }
        k = k + 1;
    }
    assert(all.take(k as int) =~= all);
    if failed || total < -0x8000_0000_0000_0000 || total > 0x7fff_ffff_ffff_ffff {
        Err(InputError::TooLarge)
    } else {
        Ok(total as i64)
    }
}

proof fn lemma_sum_none(ls: Seq<Seq<u8>>, k: int, forward: bool)
    requires
        0 <= k < ls.len(),
        history(ls[k]) is None,
    ensures
        extrapolated_sum(ls, forward) is None,
    decreases ls.len(),
{
    if k < ls.len() - 1 {
        lemma_sum_none(ls.drop_last(), k, forward);
    }
}

/// Sum of the values that extend each history of `input` forwards.
pub fn run_part_1(input: String) -> (r: Result<i64, InputError>)
    ensures
        extrapolated_sum(lines(bytes_of(input@)), true) is None <==> r == Err::<i64, InputError>(InputError::Malformed),
        extrapolated_sum(lines(bytes_of(input@)), true) matches Some(v) ==> if lines_fit(lines(bytes_of(input@)), true)
            && i64::MIN <= v <= i64::MAX {
            r == Ok::<i64, InputError>(v as i64)
        } else {
            r == Err::<i64, InputError>(InputError::TooLarge)
        },
{
    extrapolated_total(&input, true)
}

/// Sum of the values that extend each history of `input` backwards.
pub fn run_part_2(input: String) -> (r: Result<i64, InputError>)
    ensures
        extrapolated_sum(lines(bytes_of(input@)), false) is None <==> r == Err::<i64, InputError>(InputError::Malformed),
        extrapolated_sum(lines(bytes_of(input@)), false) matches Some(v) ==> if lines_fit(lines(bytes_of(input@)), false)
            && i64::MIN <= v <= i64::MAX {
            r == Ok::<i64, InputError>(v as i64)
        } else {
            r == Err::<i64, InputError>(InputError::TooLarge)
        },
{
    extrapolated_total(&input, false)
}

} // verus!
