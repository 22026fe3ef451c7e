use vstd::prelude::*;
use crate::text::bytes_of;
use crate::text::is_digit;
use crate::text::line_bounds;
use crate::text::lines;
use crate::text::InputError;

verus! {

/// The first digit of `s`, read from the front.
pub open spec fn first_digit(s: Seq<u8>) -> Option<int>
    decreases s.len(),
{
    if s.len() == 0 {
        None
    } else if is_digit(s[0]) {
        Some(s[0] - 48)
    } else {
        first_digit(s.drop_first())
    }
}

/// The last digit of `s`.
pub open spec fn last_digit(s: Seq<u8>) -> Option<int>
    decreases s.len(),
{
    if s.len() == 0 {
        None
    } else if is_digit(s.last()) {
        Some(s.last() - 48)
    } else {
        last_digit(s.drop_last())
    }
}

/// The two-digit value of a line: its first digit, then its last.
pub open spec fn calibration(s: Seq<u8>) -> Option<int> {
    match (first_digit(s), last_digit(s)) {
        (Some(a), Some(b)) => Some(10 * a + b),
        _ => None,
    }
}

/// Sum of the calibration values of `ls`; `None` when a line has no digit.
pub open spec fn calibration_sum(ls: Seq<Seq<u8>>) -> Option<int>
    decreases ls.len(),
{
    if ls.len() == 0 {
        Some(0)
    } else {
        match (calibration_sum(ls.drop_last()), calibration(ls.last())) {
            (Some(x), Some(y)) => Some(x + y),
            _ => None,
        }
    }
}

fn line_calibration(b: &[u8], lo: usize, hi: usize) -> (r: Option<u64>)
    requires
        lo <= hi <= b@.len(),
    ensures
        r is Some <==> calibration(b@.subrange(lo as int, hi as int)) is Some,
        r matches Some(v) ==> v as int == calibration(b@.subrange(lo as int, hi as int))->0,
{
    let ghost t = b@.subrange(lo as int, hi as int);
    let mut i = lo;
    while i < hi && !(b[i] >= 48 && b[i] <= 57)
        invariant
            lo <= i <= hi <= b@.len(),
            first_digit(t) == first_digit(b@.subrange(i as int, hi as int)),
        decreases hi - i,
    {
        assert(b@.subrange(i as int, hi as int).drop_first() =~= b@.subrange(i + 1, hi as int));
        i = i + 1;
    }
    if i == hi {
        return None;
    }
    assert(b@.subrange(i as int, hi as int)[0] == b@[i as int]);
    let first = (b[i] - 48) as u64;
    let mut j = hi;
    assert(t == b@.subrange(lo as int, j as int));
    while j > lo && !(b[j - 1] >= 48 && b[j - 1] <= 57)
        invariant
            lo <= j <= hi <= b@.len(),
            last_digit(t) == last_digit(b@.subrange(lo as int, j as int)),
        decreases j - lo,
    {
        assert(b@.subrange(lo as int, j as int).drop_last() =~= b@.subrange(lo as int, j - 1));
        j = j - 1;
    }
    if j == lo {
        return None;
    }
    assert(b@.subrange(lo as int, j as int).last() == b@[j - 1]);
    let last = (b[j - 1] - 48) as u64;
    Some(10 * first + last)
}

/// Sum, over the lines of `input`, of the number made of each line's first and last digit.
pub fn run_part_1(input: String) -> (r: Result<u64, InputError>)
    ensures
        match calibration_sum(lines(bytes_of(input@))) {
            None => r == Err::<u64, InputError>(InputError::Malformed),
            Some(v) => if v <= u64::MAX {
                r == Ok::<u64, InputError>(v as u64)
            } else {
                r == Err::<u64, InputError>(InputError::TooLarge)
            },
        },
{
    let b = input.as_str().as_bytes();
    let ls = line_bounds(b);
    let ghost all = lines(b@);
    let mut total: u128 = 0;
    let mut k: usize = 0;
    while k < ls.len()
        invariant
            k <= ls@.len() == all.len(),
            all == lines(b@),
            b@ == bytes_of(input@),
            forall|j: int|
                0 <= j < ls@.len() ==> (#[trigger] ls@[j]).0 <= ls@[j].1 <= b@.len() && b@.subrange(ls@[j].0 as int, ls@[j].1 as int)
                    == all[j],
            calibration_sum(all.take(k as int)) == Some(total as int),
            total <= 99 * k,
        decreases ls@.len() - k,
    {
        let (lo, hi) = ls[k];
        assert(all.take(k + 1).drop_last() =~= all.take(k as int));
        match line_calibration(b, lo, hi) {
            None => {
                proof {
                    assert(b@.subrange(lo as int, hi as int) == all[k as int]);
                    lemma_sum_none(all, k as int);
                }
                return Err(InputError::Malformed);
            },
            Some(v) => {
                proof {
                    let line = all[k as int];
                    let a = first_digit(line)->0;
                    let c = last_digit(line)->0;
                    lemma_digit_range(line);
                }
                total = total + v as u128;
            },
        }
        k = k + 1;
    }
    assert(all.take(k as int) =~= all);
    if total > 0xffff_ffff_ffff_ffff {
        Err(InputError::TooLarge)
    } else {
        Ok(total as u64)
    }
}

proof fn lemma_digit_range(s: Seq<u8>)
    ensures
        first_digit(s) matches Some(a) ==> 0 <= a <= 9,
        last_digit(s) matches Some(a) ==> 0 <= a <= 9,
    decreases s.len(),
{
    if s.len() > 0 {
        lemma_digit_range(s.drop_first());
        lemma_digit_range(s.drop_last());
    }
}

proof fn lemma_sum_none(ls: Seq<Seq<u8>>, k: int)
    requires
        0 <= k < ls.len(),
        calibration(ls[k]) is None,
    ensures
        calibration_sum(ls) is None,
    decreases ls.len(),
{
    if k < ls.len() - 1 {
        lemma_sum_none(ls.drop_last(), k);
    }
}


/// The letters of the number `n` spelled out, for `n` from 1 to 9.
pub open spec fn word(n: int) -> Seq<u8> {
    if n == 1 {
        seq![111u8, 110, 101]
    } else if n == 2 {
        seq![116u8, 119, 111]
    } else if n == 3 {
        seq![116u8, 104, 114, 101, 101]
    } else if n == 4 {
        seq![102u8, 111, 117, 114]
    } else if n == 5 {
        seq![102u8, 105, 118, 101]
    } else if n == 6 {
        seq![115u8, 105, 120]
    } else if n == 7 {
        seq![115u8, 101, 118, 101, 110]
    } else if n == 8 {
        seq![101u8, 105, 103, 104, 116]
    } else {
        seq![110u8, 105, 110, 101]
    }
}

fn word_bytes(n: usize) -> (r: Vec<u8>)
    ensures
        r@ == word(n as int),
{
    let r = if n == 1 {
        vec![111u8, 110, 101]
    } else if n == 2 {
        vec![116u8, 119, 111]
    } else if n == 3 {
        vec![116u8, 104, 114, 101, 101]
    } else if n == 4 {
        vec![102u8, 111, 117, 114]
    } else if n == 5 {
        vec![102u8, 105, 118, 101]
    } else if n == 6 {
        vec![115u8, 105, 120]
    } else if n == 7 {
        vec![115u8, 101, 118, 101, 110]
    } else if n == 8 {
        vec![101u8, 105, 103, 104, 116]
    } else {
        vec![110u8, 105, 110, 101]
    };
    assert(r@ =~= word(n as int));
    r
}

/// The spelled-out number, from `n` up to 9, that `s` holds at position `i`.
pub open spec fn spelled_at(s: Seq<u8>, i: int, n: int) -> Option<int>
    decreases 10 - n,
{
    if n > 9 || n < 1 {
        None
    } else if i + word(n).len() <= s.len() && s.subrange(i, i + word(n).len()) == word(n) {
        Some(n)
    } else {
        spelled_at(s, i, n + 1)
    }
}

/// The digit, written or spelled out, that starts at position `i` of `s`.
pub open spec fn digit_at(s: Seq<u8>, i: int) -> Option<int> {
    if is_digit(s[i]) {
        Some(s[i] - 48)
    } else {
        spelled_at(s, i, 1)
    }
}

/// The first digit, written or spelled out, at or after position `i`.
pub open spec fn first_from(s: Seq<u8>, i: int) -> Option<int>
    decreases s.len() - i,
{
    if i < 0 || i >= s.len() {
        None
    } else {
        match digit_at(s, i) {
            Some(d) => Some(d),
            None => first_from(s, i + 1),
        }
    }
}

/// The last digit, written or spelled out, that starts before position `j`.
pub open spec fn last_before(s: Seq<u8>, j: int) -> Option<int>
    decreases j,
{
    if j <= 0 || j > s.len() {
        None
    } else {
        match digit_at(s, j - 1) {
            Some(d) => Some(d),
            None => last_before(s, j - 1),
        }
    }
}

pub open spec fn spelled_calibration(s: Seq<u8>) -> Option<int> {
    match (first_from(s, 0), last_before(s, s.len() as int)) {
        (Some(a), Some(b)) => Some(10 * a + b),
        _ => None,
    }
}

pub open spec fn spelled_sum(ls: Seq<Seq<u8>>) -> Option<int>
    decreases ls.len(),
{
    if ls.len() == 0 {
        Some(0)
    } else {
        match (spelled_sum(ls.drop_last()), spelled_calibration(ls.last())) {
            (Some(x), Some(y)) => Some(x + y),
            _ => None,
        }
    }
}

proof fn lemma_spelled_range(s: Seq<u8>, i: int, n: int)
    ensures
        spelled_at(s, i, n) matches Some(d) ==> 1 <= d <= 9,
    decreases 10 - n,
{
    if 1 <= n <= 9 {
        lemma_spelled_range(s, i, n + 1);
    }
}

fn digit_at_exec(b: &[u8], lo: usize, hi: usize, i: usize) -> (r: Option<u64>)
    requires
        lo <= i < hi <= b@.len(),
    ensures
        r matches Some(v) ==> v <= 9,
        r is Some <==> digit_at(b@.subrange(lo as int, hi as int), i - lo) is Some,
        r matches Some(v) ==> v as int == digit_at(b@.subrange(lo as int, hi as int), i - lo)->0,
{
    let ghost s = b@.subrange(lo as int, hi as int);
    let ghost p = i - lo;
    assert(s[p] == b@[i as int]);
    if b[i] >= 48 && b[i] <= 57 {
        return Some((b[i] - 48) as u64);
    }
    let mut n: usize = 1;
    while n <= 9
        invariant
            1 <= n <= 10,
            lo <= i < hi <= b@.len(),
            s == b@.subrange(lo as int, hi as int),
            p == i - lo,
            spelled_at(s, p, 1) == spelled_at(s, p, n as int),
        decreases 10 - n,
    {
        let w = word_bytes(n);
        let len = w.len();
        if len <= hi - i {
            let mut k: usize = 0;
            while k < len && b[i + k] == w[k]
                invariant
                    k <= len == w@.len(),
                    i + len <= hi <= b@.len(),
                    forall|j: int| 0 <= j < k ==> b@[i + j] == w@[j],
                decreases len - k,
            {
                k = k + 1;
            }
            if k == len {
                proof {
                    assert(s.subrange(p, p + len) =~= w@);
                    lemma_spelled_range(s, p, n as int);
                }
                return Some(n as u64);
            }
            assert(s.subrange(p, p + len)[k as int] != w@[k as int]);
        }
        n = n + 1;
    }
    None
}

fn line_spelled(b: &[u8], lo: usize, hi: usize) -> (r: Option<u64>)
    requires
        lo <= hi <= b@.len(),
    ensures
        r is Some <==> spelled_calibration(b@.subrange(lo as int, hi as int)) is Some,
        r matches Some(v) ==> v <= 99,
        r matches Some(v) ==> v as int == spelled_calibration(b@.subrange(lo as int, hi as int))->0,
{
    let ghost s = b@.subrange(lo as int, hi as int);
    let mut i = lo;
    let mut first: Option<u64> = None;
    while i < hi
        invariant
            lo <= i <= hi <= b@.len(),
            s == b@.subrange(lo as int, hi as int),
            first is None ==> first_from(s, 0) == first_from(s, i - lo),
            first matches Some(v) ==> first_from(s, 0) == Some(v as int) && v <= 9 && i == hi,
        decreases hi - i,
    {
        match digit_at_exec(b, lo, hi, i) {
            Some(d) => {
                assert(first_from(s, i - lo) == Some(d as int));
                first = Some(d);
                i = hi;
            },
            None => {
                i = i + 1;
            },
        }
    }
    let a = match first {
        None => {
            return None;
        },
        Some(a) => a,
    };
    let mut j = hi;
    let mut last: Option<u64> = None;
    while j > lo
        invariant
            lo <= j <= hi <= b@.len(),
            s == b@.subrange(lo as int, hi as int),
            last is None ==> last_before(s, s.len() as int) == last_before(s, j - lo),
            last matches Some(v) ==> last_before(s, s.len() as int) == Some(v as int) && v <= 9 && j == lo,
        decreases j - lo,
    {
        match digit_at_exec(b, lo, hi, j - 1) {
            Some(d) => {
                assert(last_before(s, j - lo) == Some(d as int));
                last = Some(d);
                j = lo;
            },
            None => {
                j = j - 1;
            },
        }
    }
    match last {
        None => None,
        Some(c) => Some(10 * a + c),
    }
}

/// Sum over the lines of `input` of the number made of each line's first and last
/// digit, where a digit may also be spelled out ("one" to "nine").
pub fn run_part_2(input: String) -> (r: Result<u64, InputError>)
    ensures
        match spelled_sum(lines(bytes_of(input@))) {
            None => r == Err::<u64, InputError>(InputError::Malformed),
            Some(v) => if v <= u64::MAX {
                r == Ok::<u64, InputError>(v as u64)
            } else {
                r == Err::<u64, InputError>(InputError::TooLarge)
            },
        },
{
    let b = input.as_str().as_bytes();
    let ls = line_bounds(b);
    let ghost all = lines(b@);
    let mut total: u128 = 0;
    let mut k: usize = 0;
    while k < ls.len()
        invariant
            k <= ls@.len() == all.len(),
            all == lines(b@),
            b@ == bytes_of(input@),
            forall|j: int|
                0 <= j < ls@.len() ==> (#[trigger] ls@[j]).0 <= ls@[j].1 <= b@.len() && b@.subrange(ls@[j].0 as int, ls@[j].1 as int)
                    == all[j],
            spelled_sum(all.take(k as int)) == Some(total as int),
            total <= 99 * k,
        decreases ls@.len() - k,
    {
        let (lo, hi) = ls[k];
        assert(all.take(k + 1).drop_last() =~= all.take(k as int));
        match line_spelled(b, lo, hi) {
            None => {
                proof {
                    assert(b@.subrange(lo as int, hi as int) == all[k as int]);
                    lemma_spelled_sum_none(all, k as int);
                }
                return Err(InputError::Malformed);
            },
            Some(v) => {
                total = total + v as u128;
            },
        }
        k = k + 1;
    }
    assert(all.take(k as int) =~= all);
    if total > 0xffff_ffff_ffff_ffff {
        Err(InputError::TooLarge)
    } else {
        Ok(total as u64)
    }
}

proof fn lemma_spelled_sum_none(ls: Seq<Seq<u8>>, k: int)
    requires
        0 <= k < ls.len(),
        spelled_calibration(ls[k]) is None,
    ensures
        spelled_sum(ls) is None,
    decreases ls.len(),
{
    if k < ls.len() - 1 {
        lemma_spelled_sum_none(ls.drop_last(), k);
    }
}

} // verus!
