use vstd::prelude::*;
use crate::text::bytes_of;
use crate::text::decimal;
use crate::text::all_digits;
use crate::text::is_digit;
use crate::text::lemma_decimal_nonneg;
use crate::text::line_bounds;
use crate::text::lines;
use crate::text::parse_decimal;
use crate::text::InputError;

verus! {

/// A symbol: anything but a digit or `.`.
pub open spec fn is_symbol(c: u8) -> bool {
    c != 46 && !is_digit(c)
}

pub open spec fn in_grid(ls: Seq<Seq<u8>>, x: int, y: int) -> bool {
    0 <= x < ls.len() && 0 <= y < ls[x].len()
}

/// End (exclusive) of the run of digits of line `l` that goes on at `y`.
pub open spec fn run_end(l: Seq<u8>, y: int) -> int
    decreases l.len() - y,
{
    if 0 <= y < l.len() && is_digit(l[y]) {
        run_end(l, y + 1)
    } else {
        y
    }
}

/// A number starts at (x, y): a digit with no digit just before it.
pub open spec fn starts_number(ls: Seq<Seq<u8>>, x: int, y: int) -> bool {
    in_grid(ls, x, y) && is_digit(ls[x][y]) && (y == 0 || !is_digit(ls[x][y - 1]))
}

/// The number that starts at (x, y).
pub open spec fn number_at(ls: Seq<Seq<u8>>, x: int, y: int) -> int {
    decimal(ls[x].subrange(y, run_end(ls[x], y)))
}

/// (a, c) is next to the number that starts at (x, y), or on it.
pub open spec fn around(ls: Seq<Seq<u8>>, x: int, y: int, a: int, c: int) -> bool {
    x - 1 <= a <= x + 1 && y - 1 <= c <= run_end(ls[x], y)
}

/// A symbol lies next to the number that starts at (x, y).
pub open spec fn touches_symbol(ls: Seq<Seq<u8>>, x: int, y: int) -> bool {
    exists|a: int, c: int| around(ls, x, y, a, c) && in_grid(ls, a, c) && is_symbol(#[trigger] ls[a][c])
}

/// Sum of the part numbers that start in the first `n` columns of row `x`.
pub open spec fn row_parts(ls: Seq<Seq<u8>>, x: int, n: int) -> int
    decreases n,
{
    if n <= 0 {
        0
    } else {
        row_parts(ls, x, n - 1) + if starts_number(ls, x, n - 1) && touches_symbol(ls, x, n - 1) {
            number_at(ls, x, n - 1)
        } else {
            0
        }
    }
}

/// Sum of the part numbers of the first `m` rows.
pub open spec fn parts(ls: Seq<Seq<u8>>, m: int) -> int
    decreases m,
{
    if m <= 0 {
        0
    } else {
        parts(ls, m - 1) + row_parts(ls, m - 1, ls[m - 1].len() as int)
    }
}

fn end_of_run(b: &[u8], lo: usize, hi: usize, y: usize, Ghost(l): Ghost<Seq<u8>>) -> (e: usize)
    requires
        lo <= hi <= b@.len(),
        l == b@.subrange(lo as int, hi as int),
        y <= hi - lo,
    ensures
        e == run_end(l, y as int),
        y <= e <= hi - lo,
        forall|t: int| y <= t < e ==> is_digit(#[trigger] l[t]),
{
    let mut e = y;
    while e < hi - lo && b[lo + e] >= 48 && b[lo + e] <= 57
        invariant
            lo <= hi <= b@.len(),
            l == b@.subrange(lo as int, hi as int),
            y <= e <= hi - lo,
            run_end(l, y as int) == run_end(l, e as int),
            forall|t: int| y <= t < e ==> is_digit(#[trigger] l[t]),
        decreases hi - lo - e,
    {
        assert(l[e as int] == b@[lo + e]);
        e = e + 1;
    }
    if e < hi - lo {
        assert(l[e as int] == b@[lo + e]);
    }
    e
}

proof fn lemma_run_digits(l: Seq<u8>, y: int)
    requires
        y >= 0,
    ensures
        y <= run_end(l, y) <= l.len() || run_end(l, y) == y,
        forall|t: int| y <= t < run_end(l, y) ==> 0 <= t < l.len() && is_digit(#[trigger] l[t]),
    decreases l.len() - y,
{
    if 0 <= y < l.len() && is_digit(l[y]) {
        lemma_run_digits(l, y + 1);
    }
}

proof fn lemma_number_nonneg(ls: Seq<Seq<u8>>, x: int, y: int)
    requires
        starts_number(ls, x, y),
    ensures
        number_at(ls, x, y) >= 0,
{
    let l = ls[x];
    lemma_run_digits(l, y);
    lemma_run_end_ge(l, y);
    let d = l.subrange(y, run_end(l, y));
    assert(all_digits(d)) by {
        assert forall|i: int| 0 <= i < d.len() implies is_digit(#[trigger] d[i]) by {
            assert(d[i] == l[y + i]);
        }
    }
    lemma_decimal_nonneg(d);
}

proof fn lemma_run_end_ge(l: Seq<u8>, y: int)
    ensures
        y >= 0 ==> run_end(l, y) >= y,
    decreases l.len() - y,
{
    if 0 <= y < l.len() && is_digit(l[y]) {
        lemma_run_end_ge(l, y + 1);
    }
}

/// Whether a symbol lies next to the number of row `x` that spans `[y, e)`.
fn symbol_near(b: &[u8], ls: &Vec<(usize, usize)>, x: usize, y: usize, e: usize, Ghost(g): Ghost<Seq<Seq<u8>>>) -> (r: bool)
    requires
        ls@.len() == g.len(),
        x < g.len(),
        e == run_end(g[x as int], y as int),
        forall|j: int|
            0 <= j < ls@.len() ==> (#[trigger] ls@[j]).0 <= ls@[j].1 <= b@.len() && b@.subrange(ls@[j].0 as int, ls@[j].1 as int)
                == g[j],
    ensures
        r == touches_symbol(g, x as int, y as int),
{
    let n = ls.len();
    proof {
        lemma_run_end_ge(g[x as int], y as int);
    }
    let a0: usize = if x == 0 {
        0
    } else {
        x - 1
    };
    let a1: usize = if x + 1 < n {
        x + 2
    } else {
        n
    };
    let c0: usize = if y == 0 {
        0
    } else {
        y - 1
    };
    let mut a = a0;
    while a < a1
        invariant
            a0 <= a <= a1 <= n == ls@.len() == g.len(),
            x < n,
            a0 == x || a0 + 1 == x,
            a1 == x + 2 || a1 == n,
            a1 <= x + 2,
            c0 == (if y == 0 { 0 } else { y - 1 }),
                e >= y,
            e == run_end(g[x as int], y as int),
            forall|j: int|
                0 <= j < ls@.len() ==> (#[trigger] ls@[j]).0 <= ls@[j].1 <= b@.len() && b@.subrange(ls@[j].0 as int, ls@[j].1 as int)
                    == g[j],
            forall|p: int, c: int| a0 <= p < a && around(g, x as int, y as int, p, c) && in_grid(g, p, c) ==> !is_symbol(#[trigger] g[p][c]),
        decreases a1 - a,
    {
        let (lo, hi) = ls[a];
        let mut c = c0;
        while c <= e && c < hi - lo
            invariant
                c0 <= c,
                c <= e + 1,
                lo <= hi <= b@.len(),
                a0 <= a < a1 <= n == ls@.len() == g.len(),
                x < n,
                a0 == x || a0 + 1 == x,
                a1 == x + 2 || a1 == n,
                a1 <= x + 2,
                e == run_end(g[x as int], y as int),
                forall|j: int|
                    0 <= j < ls@.len() ==> (#[trigger] ls@[j]).0 <= ls@[j].1 <= b@.len() && b@.subrange(
                        ls@[j].0 as int,
                        ls@[j].1 as int,
                    ) == g[j],
                forall|p: int, cc: int| a0 <= p < a && around(g, x as int, y as int, p, cc) && in_grid(g, p, cc) ==> !is_symbol(
                    #[trigger] g[p][cc],
                ),
                g[a as int] == b@.subrange(lo as int, hi as int),
                c0 == (if y == 0 { 0 } else { y - 1 }),
                e >= y,
                forall|t: int| c0 <= t < c && t < g[a as int].len() ==> !is_symbol(#[trigger] g[a as int][t]),
            decreases hi - lo - c,
        {
            let ch = b[lo + c];
            assert(g[a as int][c as int] == ch);
            if ch != 46 && !(ch >= 48 && ch <= 57) {
                assert(around(g, x as int, y as int, a as int, c as int));
                assert(in_grid(g, a as int, c as int));
                return true;
            }
            c = c + 1;
        }
        proof {
            assert forall|p: int, cc: int| a0 <= p < a + 1 && around(g, x as int, y as int, p, cc) && in_grid(g, p, cc) implies !is_symbol(
                #[trigger] g[p][cc],
            ) by {
                if p == a {
                    assert(c0 <= cc);
                }
            }
        }
        a = a + 1;
    }
    proof {
        assert forall|p: int, cc: int| around(g, x as int, y as int, p, cc) && in_grid(g, p, cc) implies !is_symbol(#[trigger] g[p][cc]) by {
            assert(a0 <= p < a1);
        }
    }
    false
}

/// Sum of the numbers in `input` that lie next to a symbol.
pub fn run_part_1(input: String) -> (r: Result<u64, InputError>)
    ensures
        ({
            let v = parts(lines(bytes_of(input@)), lines(bytes_of(input@)).len() as int);
            if v <= u64::MAX {
                r == Ok::<u64, InputError>(v as u64)
            } else {
                r == Err::<u64, InputError>(InputError::TooLarge)
            }
        }),
{
    let b = input.as_str().as_bytes();
    let ls = line_bounds(b);
    let ghost g = lines(b@);
    let n = ls.len();
    let mut total: u128 = 0;
    let mut big = false;
    let mut x: usize = 0;
    while x < n
        invariant
            x <= n == ls@.len() == g.len(),
            g == lines(b@),
            b@ == bytes_of(input@),
            forall|j: int|
                0 <= j < ls@.len() ==> (#[trigger] ls@[j]).0 <= ls@[j].1 <= b@.len() && b@.subrange(ls@[j].0 as int, ls@[j].1 as int)
                    == g[j],
            parts(g, x as int) >= 0,
            !big ==> total == parts(g, x as int),
            big ==> parts(g, x as int) > u64::MAX,
        decreases n - x,
    {
        let (lo, hi) = ls[x];
        let ghost l = g[x as int];
        let mut row: u128 = 0;
        let mut y: usize = 0;
        while y < hi - lo
            invariant
                x < n == ls@.len() == g.len(),
                lo <= hi <= b@.len(),
                l == g[x as int],
                l == b@.subrange(lo as int, hi as int),
                forall|j: int|
                    0 <= j < ls@.len() ==> (#[trigger] ls@[j]).0 <= ls@[j].1 <= b@.len() && b@.subrange(
                        ls@[j].0 as int,
                        ls@[j].1 as int,
                    ) == g[j],
                y <= hi - lo,
                parts(g, x as int) >= 0,
                row_parts(g, x as int, y as int) >= 0,
                !big ==> row == row_parts(g, x as int, y as int) && total == parts(g, x as int),
                big ==> parts(g, x as int) + row_parts(g, x as int, y as int) > u64::MAX,
            decreases hi - lo - y,
        {
            let c = b[lo + y];
            assert(l[y as int] == c);
            let starts = c >= 48 && c <= 57 && (y == 0 || !(b[lo + y - 1] >= 48 && b[lo + y - 1] <= 57));
            if y > 0 {
                assert(l[y - 1] == b@[lo + y - 1]);
            }
            if starts {
                proof {
                    lemma_number_nonneg(g, x as int, y as int);
                }
                let e = end_of_run(b, lo, hi, y, Ghost(l));
                if symbol_near(b, &ls, x, y, e, Ghost(g)) {
                    proof {
                        assert(b@.subrange(lo + y, lo + e) =~= l.subrange(y as int, e as int));
                        assert(all_digits(l.subrange(y as int, e as int)));
                    }
                    match parse_decimal(b, lo + y, lo + e) {
                        Some(v) => {
                            if !big {
                                match row.checked_add(v as u128) {
                                    Some(t) => {
                                        row = t;
                                    },
                                    None => {
                                        big = true;
                                    },
                                }
                            }
                        },
                        None => {
                            proof {
                                lemma_run_end_ge(l, y + 1);
                                assert(e > y);
                                assert(number_at(g, x as int, y as int) > u64::MAX);
                            }
                            big = true;
                        },
                    }
                    assert(row_parts(g, x as int, y + 1) == row_parts(g, x as int, y as int) + number_at(g, x as int, y as int));
                }
            }
            y = y + 1;
        }
        if !big {
            match total.checked_add(row) {
                Some(t) => {
                    total = t;
                },
                None => {
                    big = true;
                },
            }
        }
        x = x + 1;
    }
    if big || total > 0xffff_ffff_ffff_ffff {
        Err(InputError::TooLarge)
    } else {
        Ok(total as u64)
    }
}

/// Values of the numbers of row `a`, starting in its first `n` columns, that lie next
/// to (x, y), from left to right.
pub open spec fn near_values(ls: Seq<Seq<u8>>, x: int, y: int, a: int, n: int) -> Seq<int>
    decreases n,
{
    if n <= 0 {
        seq![]
    } else if starts_number(ls, a, n - 1) && around(ls, a, n - 1, x, y) {
        near_values(ls, x, y, a, n - 1).push(number_at(ls, a, n - 1))
    } else {
        near_values(ls, x, y, a, n - 1)
    }
}

pub open spec fn row_near(ls: Seq<Seq<u8>>, x: int, y: int, a: int) -> Seq<int> {
    if 0 <= a < ls.len() {
        near_values(ls, x, y, a, ls[a].len() as int)
    } else {
        seq![]
    }
}

/// The numbers next to (x, y), row above first.
pub open spec fn gear_values(ls: Seq<Seq<u8>>, x: int, y: int) -> Seq<int> {
    row_near(ls, x, y, x - 1) + row_near(ls, x, y, x) + row_near(ls, x, y, x + 1)
}

/// Gear ratio of the cell (x, y): for a `*` next to exactly two numbers, their product.
pub open spec fn ratio(ls: Seq<Seq<u8>>, x: int, y: int) -> int {
    let v = gear_values(ls, x, y);
    if in_grid(ls, x, y) && ls[x][y] == 42 && v.len() == 2 {
        v[0] * v[1]
    } else {
        0
    }
}

pub open spec fn row_ratios(ls: Seq<Seq<u8>>, x: int, n: int) -> int
    decreases n,
{
    if n <= 0 {
        0
    } else {
        row_ratios(ls, x, n - 1) + ratio(ls, x, n - 1)
    }
}

pub open spec fn ratios(ls: Seq<Seq<u8>>, m: int) -> int
    decreases m,
{
    if m <= 0 {
        0
    } else {
        ratios(ls, m - 1) + row_ratios(ls, m - 1, ls[m - 1].len() as int)
    }
}

/// A value, or 2^64 for any value that does not fit in a `u64`.
pub open spec fn capped(v: int) -> int {
    if v <= u64::MAX {
        v
    } else {
        u64::MAX + 1
    }
}

pub open spec fn capped_all(s: Seq<int>) -> Seq<int> {
    Seq::new(s.len(), |i: int| capped(s[i]))
}

proof fn lemma_near_nonneg(ls: Seq<Seq<u8>>, x: int, y: int, a: int, n: int)
    ensures
        forall|i: int| 0 <= i < near_values(ls, x, y, a, n).len() ==> #[trigger] near_values(ls, x, y, a, n)[i] >= 0,
    decreases n,
{
    if n > 0 {
        lemma_near_nonneg(ls, x, y, a, n - 1);
        let prev = near_values(ls, x, y, a, n - 1);
        if starts_number(ls, a, n - 1) {
            lemma_number_nonneg(ls, a, n - 1);
        }
        assert forall|i: int| 0 <= i < near_values(ls, x, y, a, n).len() implies #[trigger] near_values(ls, x, y, a, n)[i]
            >= 0 by {
            if i < prev.len() {
                assert(prev[i] >= 0);
            }
        }
    }
}

/// Values of the numbers of row `a` next to (x, y), each capped at 2^64.
fn row_values(b: &[u8], ls: &Vec<(usize, usize)>, x: usize, y: usize, a: usize, Ghost(g): Ghost<Seq<Seq<u8>>>) -> (r: Vec<
    u128,
>)
    requires
        ls@.len() == g.len(),
        a < g.len(),
        forall|j: int|
            0 <= j < ls@.len() ==> (#[trigger] ls@[j]).0 <= ls@[j].1 <= b@.len() && b@.subrange(ls@[j].0 as int, ls@[j].1 as int)
                == g[j],
    ensures
        r@.len() == row_near(g, x as int, y as int, a as int).len(),
        forall|i: int| 0 <= i < r@.len() ==> r@[i] == capped(row_near(g, x as int, y as int, a as int)[i]),
{
    let (lo, hi) = ls[a];
    let ghost l = g[a as int];
    let mut out: Vec<u128> = Vec::new();
    let mut s: usize = 0;
    while s < hi - lo
        invariant
            a < g.len(),
            lo <= hi <= b@.len(),
            l == g[a as int],
            l == b@.subrange(lo as int, hi as int),
            s <= hi - lo,
            out@.len() == near_values(g, x as int, y as int, a as int, s as int).len(),
            forall|i: int| 0 <= i < out@.len() ==> out@[i] == capped(near_values(g, x as int, y as int, a as int, s as int)[i]),
        decreases hi - lo - s,
    {
        let c = b[lo + s];
        assert(l[s as int] == c);
        if s > 0 {
            assert(l[s - 1] == b@[lo + s - 1]);
        }
        let starts = c >= 48 && c <= 57 && (s == 0 || !(b[lo + s - 1] >= 48 && b[lo + s - 1] <= 57));
        if starts {
            let e = end_of_run(b, lo, hi, s, Ghost(l));
            let near_row = if a <= x {
                x - a <= 1
            } else {
                a - x <= 1
            };
            if near_row && (s == 0 || s - 1 <= y) && y <= e {
                proof {
                    assert(b@.subrange(lo + s, lo + e) =~= l.subrange(s as int, e as int));
                    lemma_run_end_ge(l, s + 1);
                }
                let v: u128 = match parse_decimal(b, lo + s, lo + e) {
                    Some(v) => v as u128,
                    None => 0x1_0000_0000_0000_0000,
                };
                out.push(v);
            }
        }
        s = s + 1;
    }
    out
}

fn append_values(dst: &mut Vec<u128>, src: &Vec<u128>)
    ensures
        final(dst)@ == old(dst)@ + src@,
{
    let mut k: usize = 0;
    while k < src.len()
        invariant
            k <= src@.len(),
            dst@ == old(dst)@ + src@.take(k as int),
        decreases src@.len() - k,
    {
        assert(src@.take(k + 1) =~= src@.take(k as int).push(src@[k as int]));
        assert(old(dst)@ + src@.take(k + 1) =~= (old(dst)@ + src@.take(k as int)).push(src@[k as int]));
        dst.push(src[k]);
        k = k + 1;
    }
    assert(src@.take(k as int) =~= src@);
}

pub open spec fn wide(v: Seq<u128>) -> Seq<int> {
    Seq::new(v.len(), |i: int| v[i] as int)
}

proof fn lemma_ratio_nonneg(ls: Seq<Seq<u8>>, x: int, y: int)
    ensures
        ratio(ls, x, y) >= 0,
        forall|i: int| 0 <= i < gear_values(ls, x, y).len() ==> #[trigger] gear_values(ls, x, y)[i] >= 0,
{
    if 0 <= x - 1 < ls.len() {
        lemma_near_nonneg(ls, x, y, x - 1, ls[x - 1].len() as int);
    }
    if 0 <= x < ls.len() {
        lemma_near_nonneg(ls, x, y, x, ls[x].len() as int);
    }
    if 0 <= x + 1 < ls.len() {
        lemma_near_nonneg(ls, x, y, x + 1, ls[x + 1].len() as int);
    }
    let v = gear_values(ls, x, y);
    assert forall|i: int| 0 <= i < v.len() implies #[trigger] v[i] >= 0 by {
        let r0 = row_near(ls, x, y, x - 1);
        let r1 = row_near(ls, x, y, x);
        if i >= r0.len() + r1.len() {
            assert(v[i] == row_near(ls, x, y, x + 1)[i - r0.len() - r1.len()]);
        } else if i >= r0.len() {
            assert(v[i] == r1[i - r0.len()]);
        } else {
            assert(v[i] == r0[i]);
        }
    }
    if v.len() == 2 {
        assert(v[0] * v[1] >= 0) by (nonlinear_arith)
            requires
                v[0] >= 0,
                v[1] >= 0,
        ;
    }
}

/// Sum of the gear ratios in `input`.
pub fn run_part_2(input: String) -> (r: Result<u64, InputError>)
    ensures
        ({
            let v = ratios(lines(bytes_of(input@)), lines(bytes_of(input@)).len() as int);
            if v <= u64::MAX {
                r == Ok::<u64, InputError>(v as u64)
            } else {
                r == Err::<u64, InputError>(InputError::TooLarge)
            }
        }),
{
    let b = input.as_str().as_bytes();
    let ls = line_bounds(b);
    let ghost g = lines(b@);
    let n = ls.len();
    let mut total: u128 = 0;
    let mut big = false;
    let mut x: usize = 0;
    while x < n
        invariant
            x <= n == ls@.len() == g.len(),
            g == lines(b@),
            b@ == bytes_of(input@),
            forall|j: int|
                0 <= j < ls@.len() ==> (#[trigger] ls@[j]).0 <= ls@[j].1 <= b@.len() && b@.subrange(ls@[j].0 as int, ls@[j].1 as int)
                    == g[j],
            ratios(g, x as int) >= 0,
            !big ==> total == ratios(g, x as int),
            big ==> ratios(g, x as int) > u64::MAX,
        decreases n - x,
    {
        let (lo, hi) = ls[x];
        let ghost l = g[x as int];
        let mut row: u128 = 0;
        let mut y: usize = 0;
        while y < hi - lo
            invariant
                x < n == ls@.len() == g.len(),
                lo <= hi <= b@.len(),
                l == g[x as int],
                l == b@.subrange(lo as int, hi as int),
                forall|j: int|
                    0 <= j < ls@.len() ==> (#[trigger] ls@[j]).0 <= ls@[j].1 <= b@.len() && b@.subrange(
                        ls@[j].0 as int,
                        ls@[j].1 as int,
                    ) == g[j],
                y <= hi - lo,
                ratios(g, x as int) >= 0,
                row_ratios(g, x as int, y as int) >= 0,
                !big ==> row == row_ratios(g, x as int, y as int) && total == ratios(g, x as int),
                big ==> ratios(g, x as int) + row_ratios(g, x as int, y as int) > u64::MAX,
            decreases hi - lo - y,
        {
            proof {
                lemma_ratio_nonneg(g, x as int, y as int);
            }
            assert(l[y as int] == b@[lo + y]);
            if b[lo + y] == 42 {
                let mut vals: Vec<u128> = Vec::new();
                if x > 0 {
                    let v = row_values(b, &ls, x, y, x - 1, Ghost(g));
                    append_values(&mut vals, &v);
                }
                assert(wide(vals@) =~= capped_all(row_near(g, x as int, y as int, x - 1)));
                let v = row_values(b, &ls, x, y, x, Ghost(g));
                append_values(&mut vals, &v);
                assert(wide(vals@) =~= capped_all(
                    row_near(g, x as int, y as int, x - 1) + row_near(g, x as int, y as int, x as int),
                ));
                if x + 1 < n {
                    let v = row_values(b, &ls, x, y, x + 1, Ghost(g));
                    append_values(&mut vals, &v);
                }
                assert(wide(vals@) =~= capped_all(gear_values(g, x as int, y as int)));
                if vals.len() == 2 {
                    let ghost gv = gear_values(g, x as int, y as int);
                    assert(vals@[0] == capped(gv[0]) && vals@[1] == capped(gv[1]));
                    let a0 = vals[0];
                    let a1 = vals[1];
                    if a0 == 0 || a1 == 0 {
                        assert(gv[0] * gv[1] == 0) by (nonlinear_arith)
                            requires
                                gv[0] == 0 || gv[1] == 0,
                        ;
                    } else if a0 > 0xffff_ffff_ffff_ffff || a1 > 0xffff_ffff_ffff_ffff {
                        assert(gv[0] * gv[1] > u64::MAX) by (nonlinear_arith)
                            requires
                                gv[0] >= 1,
                                gv[1] >= 1,
                                gv[0] > u64::MAX || gv[1] > u64::MAX,
                        ;
                        big = true;
                    } else {
                        assert(a0 * a1 <= u128::MAX) by (nonlinear_arith)
                            requires
                                0 <= a0 <= u64::MAX,
                                0 <= a1 <= u64::MAX,
                        ;
                        let p = a0 * a1;
                        if !big {
                            match row.checked_add(p) {
                                Some(t) => {
                                    row = t;
                                },
                                None => {
                                    big = true;
                                },
                            }
                        }
                    }
                }
            }
            y = y + 1;
        }
        if !big {
            match total.checked_add(row) {
                Some(t) => {
                    total = t;
                },
                None => {
                    big = true;
                },
            }
        }
        x = x + 1;
    }
    if big || total > 0xffff_ffff_ffff_ffff {
        Err(InputError::TooLarge)
    } else {
        Ok(total as u64)
    }
}

} // verus!
