use vstd::prelude::*;
use crate::text::blocks_from;
use crate::text::bytes_of;
use crate::text::line_bounds;
use crate::text::lines;
use crate::text::InputError;

verus! {

/// The patterns of a text: its groups of lines separated by empty lines.
pub open spec fn patterns(b: Seq<u8>) -> Seq<Seq<Seq<u8>>> {
    blocks_from(lines(b), seq![])
}

/// A pattern is a non-empty rectangle of `.` and `#`.
pub open spec fn pattern_ok(p: Seq<Seq<u8>>) -> bool {
    &&& p.len() >= 1
    &&& forall|x: int| 0 <= x < p.len() ==> (#[trigger] p[x]).len() == p[0].len()
    &&& forall|x: int, y: int|
        0 <= x < p.len() && 0 <= y < p[x].len() ==> {
            let c = #[trigger] p[x][y];
            c == 46 || c == 35
        }
}

/// Number of the first `n` columns in which rows `a` and `b` differ.
pub open spec fn row_diff(a: Seq<u8>, b: Seq<u8>, n: int) -> int
    decreases n,
{
    if n <= 0 {
        0
    } else {
        row_diff(a, b, n - 1) + if a[n - 1] != b[n - 1] {
            1int
        } else {
            0int
        }
    }
}

/// Cells that differ from their reflection in the line above row `r`, over the first
/// `k` pairs of rows.
pub open spec fn h_diff(p: Seq<Seq<u8>>, r: int, k: int) -> int
    decreases k,
{
    if k <= 0 {
        0
    } else {
        h_diff(p, r, k - 1) + row_diff(p[r - k], p[r + k - 1], p[0].len() as int)
    }
}

/// Cells of row `x` that differ from their reflection in the line left of column `c`,
/// over the first `k` pairs of columns.
pub open spec fn col_pairs_diff(l: Seq<u8>, c: int, k: int) -> int
    decreases k,
{
    if k <= 0 {
        0
    } else {
        col_pairs_diff(l, c, k - 1) + if l[c - k] != l[c + k - 1] {
            1int
        } else {
            0int
        }
    }
}

/// Cells of the first `n` rows that differ from their reflection in the line left of
/// column `c`.
pub open spec fn v_diff(p: Seq<Seq<u8>>, c: int, n: int) -> int
    decreases n,
{
    if n <= 0 {
        0
    } else {
        v_diff(p, c, n - 1) + col_pairs_diff(p[n - 1], c, min(c, p[0].len() - c))
    }
}

pub open spec fn min(a: int, b: int) -> int {
    if a <= b {
        a
    } else {
        b
    }
}

/// The first line from row `r` on whose reflection differs in exactly `t` cells.
pub open spec fn first_row_line(p: Seq<Seq<u8>>, t: int, r: int) -> Option<int>
    decreases p.len() - r,
{
    if r < 1 || r >= p.len() {
        None
    } else if h_diff(p, r, min(r, p.len() - r)) == t {
        Some(r)
    } else {
        first_row_line(p, t, r + 1)
    }
}

/// The first line from column `c` on whose reflection differs in exactly `t` cells.
pub open spec fn first_col_line(p: Seq<Seq<u8>>, t: int, c: int) -> Option<int>
    decreases p[0].len() - c,
{
    if c < 1 || c >= p[0].len() {
        None
    } else if v_diff(p, c, p.len() as int) == t {
        Some(c)
    } else {
        first_col_line(p, t, c + 1)
    }
}

/// The summary of a pattern: 100 times the rows above its reflection line, or else the
/// columns left of it, for the first line whose reflection differs in exactly `t` cells.
pub open spec fn summary(p: Seq<Seq<u8>>, t: int) -> Option<int> {
    match first_row_line(p, t, 1) {
        Some(r) => Some(100 * r),
        None => first_col_line(p, t, 1),
    }
}

pub open spec fn summaries(ps: Seq<Seq<Seq<u8>>>, t: int) -> Option<int>
    decreases ps.len(),
{
    if ps.len() == 0 {
        Some(0)
    } else {
        match (summaries(ps.drop_last(), t), pattern_ok(ps.last()), summary(ps.last(), t)) {
            (Some(x), true, Some(y)) => Some(x + y),
            _ => None,
        }
    }
}

/// Summary of the pattern made of the lines `rows` (bounds into `b`).
fn summarize(b: &[u8], rows: &Vec<(usize, usize)>, t: u64, Ghost(p): Ghost<Seq<Seq<u8>>>) -> (r: Option<u128>)
    requires
        t <= 1,
        rows@.len() == p.len(),
        forall|j: int|
            0 <= j < rows@.len() ==> (#[trigger] rows@[j]).0 <= rows@[j].1 <= b@.len() && b@.subrange(
                rows@[j].0 as int,
                rows@[j].1 as int,
            ) == p[j],
    ensures
        r is Some <==> pattern_ok(p) && summary(p, t as int) is Some,
        r matches Some(v) ==> v == summary(p, t as int)->0,
{
    let h = rows.len();
    let blen = b.len();
    if h == 0 {
        return None;
    }
    let (lo0, hi0) = rows[0];
    let w = hi0 - lo0;
    let mut x: usize = 0;
    while x < h
        invariant
            b@.len() == blen,
            x <= h == p.len() == rows@.len(),
            w == p[0].len(),
            forall|j: int|
                0 <= j < rows@.len() ==> (#[trigger] rows@[j]).0 <= rows@[j].1 <= b@.len() && b@.subrange(
                    rows@[j].0 as int,
                    rows@[j].1 as int,
                ) == p[j],
            forall|i: int| 0 <= i < x ==> (#[trigger] p[i]).len() == w,
            forall|i: int, y: int|
                0 <= i < x && 0 <= y < p[i].len() ==> {
                    let c = #[trigger] p[i][y];
                    c == 46 || c == 35
                },
        decreases h - x,
    {
        let (lo, hi) = rows[x];
        if hi - lo != w {
            return None;
        }
        let mut y = lo;
        while y < hi
            invariant
                b@.len() == blen,
                lo <= y <= hi <= b@.len(),
                x < h == p.len(),
                p[x as int] == b@.subrange(lo as int, hi as int),
                forall|i: int| 0 <= i < y - lo ==> {
                    let c = #[trigger] p[x as int][i];
                    c == 46 || c == 35
                },
            decreases hi - y,
        {
            let c = b[y];
            assert(p[x as int][y - lo] == c);
            if !(c == 46 || c == 35) {
                assert(!pattern_ok(p));
                return None;
            }
            y = y + 1;
        }
        x = x + 1;
    }
    assert(pattern_ok(p));
    let mut r: usize = 1;
    while r < h
        invariant
            b@.len() == blen,
            1 <= r <= h == p.len() == rows@.len(),
            w == p[0].len(),
            pattern_ok(p),
            forall|j: int|
                0 <= j < rows@.len() ==> (#[trigger] rows@[j]).0 <= rows@[j].1 <= b@.len() && b@.subrange(
                    rows@[j].0 as int,
                    rows@[j].1 as int,
                ) == p[j],
            first_row_line(p, t as int, 1) == first_row_line(p, t as int, r as int),
            t <= 1,
        decreases h - r,
    {
        let span = if r <= h - r {
            r
        } else {
            h - r
        };
        let mut diff: u128 = 0;
        let mut k: usize = 0;
        while k < span && diff <= t as u128
            invariant
                b@.len() == blen,
                1 <= r < h == p.len() == rows@.len(),
                span == min(r as int, h - r),
                k <= span,
                w == p[0].len(),
                pattern_ok(p),
                forall|j: int|
                    0 <= j < rows@.len() ==> (#[trigger] rows@[j]).0 <= rows@[j].1 <= b@.len() && b@.subrange(
                        rows@[j].0 as int,
                        rows@[j].1 as int,
                    ) == p[j],
                diff == h_diff(p, r as int, k as int),
                diff <= t + w,
                t <= 1,
            decreases span - k,
        {
            let (alo, ahi) = rows[r - k - 1];
            let (blo, bhi) = rows[r + k];
            assert(b@.subrange(alo as int, ahi as int) == p[r - k - 1]);
            assert(b@.subrange(blo as int, bhi as int) == p[r + k as int]);
            let ghost ra = p[r - k - 1];
            let ghost rb = p[r + k as int];
            assert(ra.len() == w && rb.len() == w);
            let mut y: usize = 0;
            let mut d: u64 = 0;
            while y < w
                invariant
                    b@.len() == blen,
                    y <= w == ra.len() == rb.len(),
                    alo + w <= b@.len(),
                    b@.len() == blen,
                    blo + w <= b@.len(),
                    ra == b@.subrange(alo as int, alo + w),
                    rb == b@.subrange(blo as int, blo + w),
                    d == row_diff(ra, rb, y as int),
                    d <= y,
                decreases w - y,
            {
                assert(ra[y as int] == b@[alo + y]);
                assert(rb[y as int] == b@[blo + y]);
                if b[alo + y] != b[blo + y] {
                    d = d + 1;
                }
                y = y + 1;
            }
            proof {
                lemma_row_diff_nonneg(ra, rb, w as int);
            }
            diff = diff + d as u128;
            k = k + 1;
        }
        if k == span && diff == t as u128 {
            return Some(100 * r as u128);
        }
        proof {
            lemma_h_diff_grows(p, r as int, k as int, span as int);
        }
        r = r + 1;
    }
    let mut c: usize = 1;
    while c < w
        invariant
            b@.len() == blen,
            1 <= c,
            h == p.len() == rows@.len(),
            w == p[0].len(),
            t <= 1,
            pattern_ok(p),
            first_row_line(p, t as int, 1) is None,
            forall|j: int|
                0 <= j < rows@.len() ==> (#[trigger] rows@[j]).0 <= rows@[j].1 <= b@.len() && b@.subrange(
                    rows@[j].0 as int,
                    rows@[j].1 as int,
                ) == p[j],
            first_col_line(p, t as int, 1) == first_col_line(p, t as int, c as int),
        decreases w - c,
    {
        let span = if c <= w - c {
            c
        } else {
            w - c
        };
        let mut diff: u128 = 0;
        let mut x: usize = 0;
        while x < h && diff <= t as u128
            invariant
                b@.len() == blen,
                1 <= c < w == p[0].len(),
                span == min(c as int, w - c),
                x <= h == p.len() == rows@.len(),
                t <= 1,
                pattern_ok(p),
                forall|j: int|
                    0 <= j < rows@.len() ==> (#[trigger] rows@[j]).0 <= rows@[j].1 <= b@.len() && b@.subrange(
                        rows@[j].0 as int,
                        rows@[j].1 as int,
                    ) == p[j],
                diff == v_diff(p, c as int, x as int),
                diff <= t + w,
            decreases h - x,
        {
            let (lo, hi) = rows[x];
            assert(b@.subrange(lo as int, hi as int) == p[x as int]);
            let ghost l = p[x as int];
            assert(l.len() == w);
            let mut k: usize = 0;
            let mut cnt: u64 = 0;
            while k < span
                invariant
                    b@.len() == blen,
                    k <= span <= c,
                    c + span <= w == l.len(),
                    lo + w <= b@.len(),
                    b@.len() == blen,
                    l == b@.subrange(lo as int, lo + w),
                    cnt == col_pairs_diff(l, c as int, k as int),
                    cnt <= k,
                decreases span - k,
            {
                assert(l[c - k - 1] == b@[lo + c - k - 1]);
                assert(l[c + k as int] == b@[lo + c + k]);
                if b[lo + c - k - 1] != b[lo + c + k] {
                    cnt = cnt + 1;
                }
                k = k + 1;
            }
            diff = diff + cnt as u128;
            x = x + 1;
        }
        if x == h && diff == t as u128 {
            return Some(c as u128);
        }
        proof {
            lemma_v_diff_grows(p, c as int, x as int, h as int);
        }
        c = c + 1;
    }
    None
}

proof fn lemma_col_pairs_nonneg(l: Seq<u8>, c: int, k: int)
    ensures
        0 <= col_pairs_diff(l, c, k),
    decreases k,
{
    if k > 0 {
        lemma_col_pairs_nonneg(l, c, k - 1);
    }
}

proof fn lemma_v_diff_grows(p: Seq<Seq<u8>>, c: int, n: int, m: int)
    requires
        0 <= n <= m,
    ensures
        v_diff(p, c, n) <= v_diff(p, c, m),
    decreases m - n,
{
    if n < m {
        lemma_v_diff_grows(p, c, n, m - 1);
        lemma_col_pairs_nonneg(p[m - 1], c, min(c, p[0].len() - c));
    }
}

proof fn lemma_h_diff_grows(p: Seq<Seq<u8>>, r: int, k: int, m: int)
    requires
        0 <= k <= m,
    ensures
        h_diff(p, r, k) <= h_diff(p, r, m),
    decreases m - k,
{
    if k < m {
        lemma_h_diff_grows(p, r, k, m - 1);
        lemma_row_diff_nonneg(p[r - m], p[r + m - 1], p[0].len() as int);
    }
}

proof fn lemma_row_diff_nonneg(a: Seq<u8>, b: Seq<u8>, n: int)
    ensures
        0 <= row_diff(a, b, n),
        n >= 0 ==> row_diff(a, b, n) <= n,
    decreases n,
{
    if n > 0 {
        lemma_row_diff_nonneg(a, b, n - 1);
    }
}


proof fn lemma_summaries_none(a: Seq<Seq<Seq<u8>>>, b: Seq<Seq<Seq<u8>>>, t: int)
    requires
        summaries(a, t) is None,
    ensures
        summaries(a + b, t) is None,
    decreases b.len(),
{
    if b.len() == 0 {
        assert(a + b =~= a);
    } else {
        assert((a + b).drop_last() =~= a + b.drop_last());
        lemma_summaries_none(a, b.drop_last(), t);
    }
}

fn total_summary(input: &String, t: u64) -> (r: Result<u64, InputError>)
    requires
        t <= 1,
    ensures
        summaries(patterns(bytes_of(input@)), t as int) is None <==> r == Err::<u64, InputError>(InputError::Malformed),
        summaries(patterns(bytes_of(input@)), t as int) matches Some(v) ==> if v <= u64::MAX {
            r == Ok::<u64, InputError>(v as u64)
        } else {
            r == Err::<u64, InputError>(InputError::TooLarge)
        },
{
    let b = input.as_str().as_bytes();
    let ls = line_bounds(b);
    let ghost all = lines(b@);
    let ghost mut done: Seq<Seq<Seq<u8>>> = seq![];
    let ghost mut cur: Seq<Seq<u8>> = seq![];
    let mut group: Vec<(usize, usize)> = Vec::new();
    let mut total: u128 = 0;
    let mut overflow = false;
    let mut i: usize = 0;
    assert(all.skip(0) =~= all);
    while i < ls.len()
        invariant
            i <= ls@.len() == all.len(),
            t <= 1,
            all == lines(b@),
            b@ == bytes_of(input@),
            forall|j: int|
                0 <= j < ls@.len() ==> (#[trigger] ls@[j]).0 <= ls@[j].1 <= b@.len() && b@.subrange(ls@[j].0 as int, ls@[j].1 as int)
                    == all[j],
            blocks_from(all, seq![]) == done + blocks_from(all.skip(i as int), cur),
            group@.len() == cur.len(),
            forall|j: int|
                0 <= j < group@.len() ==> (#[trigger] group@[j]).0 <= group@[j].1 <= b@.len() && b@.subrange(
                    group@[j].0 as int,
                    group@[j].1 as int,
                ) == cur[j],
            summaries(done, t as int) is Some,
            summaries(done, t as int)->0 >= 0,
            !overflow ==> summaries(done, t as int) == Some(total as int),
            overflow ==> summaries(done, t as int)->0 > u64::MAX,
        decreases ls@.len() - i,
    {
        let (lo, hi) = ls[i];
        let ghost rest = all.skip(i as int);
        assert(rest[0] == all[i as int]);
        assert(rest.drop_first() =~= all.skip(i + 1));
        if lo == hi {
            assert(all[i as int].len() == 0);
            match summarize(b, &group, t, Ghost(cur)) {
                None => {
                    proof {
                        assert(done.push(cur).drop_last() =~= done);
                        assert(summaries(done.push(cur), t as int) is None);
                        assert(done + blocks_from(rest, cur) =~= done.push(cur) + blocks_from(all.skip(i + 1), seq![]));
                        lemma_summaries_none(done.push(cur), blocks_from(all.skip(i + 1), seq![]), t as int);
                    }
                    return Err(InputError::Malformed);
                },
                Some(v) => {
                    proof {
                        assert(done.push(cur).drop_last() =~= done);
                        assert(done + blocks_from(rest, cur) =~= done.push(cur) + blocks_from(all.skip(i + 1), seq![]));
                        done = done.push(cur);
                        cur = seq![];
                    }
                    if !overflow {
                        match total.checked_add(v) {
                            Some(x) => {
                                total = x;
                            },
                            None => {
                                overflow = true;
                            },
                        }
                    }
                    group = Vec::new();
                },
            }
        } else {
            proof {
                assert(all[i as int].len() != 0);
                cur = cur.push(all[i as int]);
            }
            group.push((lo, hi));
        }
        i = i + 1;
    }
    assert(all.skip(i as int) =~= Seq::<Seq<u8>>::empty());
    assert(done + seq![cur] =~= done.push(cur));
    assert(done.push(cur).drop_last() =~= done);
    match summarize(b, &group, t, Ghost(cur)) {
        None => Err(InputError::Malformed),
        Some(v) => {
            if overflow {
                return Err(InputError::TooLarge);
            }
            match total.checked_add(v) {
                Some(x) => {
                    if x > 0xffff_ffff_ffff_ffff {
                        Err(InputError::TooLarge)
                    } else {
                        Ok(x as u64)
                    }
                },
                None => Err(InputError::TooLarge),
            }
        },
    }
}

/// Sum of the summaries of the patterns in `input`, each summarized by its line of
/// reflection.
pub fn run_part_1(input: String) -> (r: Result<u64, InputError>)
    ensures
        summaries(patterns(bytes_of(input@)), 0) is None <==> r == Err::<u64, InputError>(InputError::Malformed),
        summaries(patterns(bytes_of(input@)), 0) matches Some(v) ==> if v <= u64::MAX {
            r == Ok::<u64, InputError>(v as u64)
        } else {
            r == Err::<u64, InputError>(InputError::TooLarge)
        },
{
    total_summary(&input, 0)
}

/// Sum of the summaries of the patterns in `input`, each summarized by the line that
/// becomes a reflection once one smudged cell is fixed.
pub fn run_part_2(input: String) -> (r: Result<u64, InputError>)
    ensures
        summaries(patterns(bytes_of(input@)), 1) is None <==> r == Err::<u64, InputError>(InputError::Malformed),
        summaries(patterns(bytes_of(input@)), 1) matches Some(v) ==> if v <= u64::MAX {
            r == Ok::<u64, InputError>(v as u64)
        } else {
            r == Err::<u64, InputError>(InputError::TooLarge)
        },
{
    total_summary(&input, 1)
}

} // verus!
