use vstd::prelude::*;
use crate::text::bytes_of;
use crate::text::line_bounds;
use crate::text::lines;
use crate::text::InputError;

verus! {

/// The galaxies (`#`) of line `l`, row `i`, in the first `n` columns.
pub open spec fn row_galaxies(l: Seq<u8>, i: int, n: int) -> Seq<(int, int)>
    decreases n,
{
    if n <= 0 {
        seq![]
    } else if l[n - 1] == 35 {
        row_galaxies(l, i, n - 1).push((i, n - 1))
    } else {
        row_galaxies(l, i, n - 1)
    }
}

/// The galaxies of the first `n` lines, row after row.
pub open spec fn galaxies(ls: Seq<Seq<u8>>, n: int) -> Seq<(int, int)>
    decreases n,
{
    if n <= 0 {
        seq![]
    } else {
        galaxies(ls, n - 1) + row_galaxies(ls[n - 1], n - 1, ls[n - 1].len() as int)
    }
}

pub open spec fn row_empty(ls: Seq<Seq<u8>>, x: int) -> bool {
    forall|j: int| 0 <= j < ls[x].len() ==> ls[x][j] != 35
}

pub open spec fn col_empty(ls: Seq<Seq<u8>>, y: int) -> bool {
    forall|x: int| 0 <= x < ls.len() && y < ls[x].len() ==> ls[x][y] != 35
}

/// Number of empty rows above row `r`.
pub open spec fn empty_rows(ls: Seq<Seq<u8>>, r: int) -> int
    decreases r,
{
    if r <= 0 {
        0
    } else {
        empty_rows(ls, r - 1) + if row_empty(ls, r - 1) {
            1int
        } else {
            0int
        }
    }
}

/// Number of empty columns left of column `c`, among the columns of the first line.
pub open spec fn empty_cols(ls: Seq<Seq<u8>>, c: int) -> int
    decreases c,
{
    if c <= 0 {
        0
    } else {
        empty_cols(ls, c - 1) + if c - 1 < ls[0].len() && col_empty(ls, c - 1) {
            1int
        } else {
            0int
        }
    }
}

/// Where galaxy `g` lies once each empty row and column has grown by `f`.
pub open spec fn expanded(ls: Seq<Seq<u8>>, f: int, g: (int, int)) -> (int, int) {
    (g.0 + f * empty_rows(ls, g.0), g.1 + f * empty_cols(ls, g.1))
}

pub open spec fn gap(a: int, b: int) -> int {
    if a >= b {
        a - b
    } else {
        b - a
    }
}

pub open spec fn distance(a: (int, int), b: (int, int)) -> int {
    gap(a.0, b.0) + gap(a.1, b.1)
}

/// Sum of the distances from position `i` of `ps` to the positions before `j`.
pub open spec fn distances_to(ps: Seq<(int, int)>, i: int, j: int) -> int
    decreases j,
{
    if j <= 0 {
        0
    } else {
        distances_to(ps, i, j - 1) + distance(ps[i], ps[j - 1])
    }
}

/// Sum of the distances between each pair among the first `n` positions.
pub open spec fn pair_distances(ps: Seq<(int, int)>, n: int) -> int
    decreases n,
{
    if n <= 0 {
        0
    } else {
        pair_distances(ps, n - 1) + distances_to(ps, n - 1, n - 1)
    }
}

/// Sum of the distances between each pair of galaxies once the empty rows and
/// columns have grown by `f`.
pub open spec fn expanded_distances(ls: Seq<Seq<u8>>, f: int) -> int {
    let gs = galaxies(ls, ls.len() as int);
    pair_distances(Seq::new(gs.len(), |i: int| expanded(ls, f, gs[i])), gs.len() as int)
}

fn galaxy_distances(input: &String, f: u64) -> (r: Result<u64, InputError>)
    requires
        f <= 1_000_000,
    ensures
        ({
            let v = expanded_distances(lines(bytes_of(input@)), f as int);
            if v <= u64::MAX {
                r == Ok::<u64, InputError>(v as u64)
            } else {
                r == Err::<u64, InputError>(InputError::TooLarge)
            }
        }),
{
    let b = input.as_str().as_bytes();
    let ls = line_bounds(b);
    let ghost all = lines(b@);
    let n = ls.len();
    let mut gal: Vec<(usize, usize)> = Vec::new();
    let mut row_gaps: Vec<u64> = Vec::new();
    let mut empties: u64 = 0;
    let mut x: usize = 0;
    while x < n
        invariant
            x <= n == ls@.len() == all.len(),
            all == lines(b@),
            forall|j: int|
                0 <= j < ls@.len() ==> (#[trigger] ls@[j]).0 <= ls@[j].1 <= b@.len() && b@.subrange(ls@[j].0 as int, ls@[j].1 as int)
                    == all[j],
            gal@.len() == galaxies(all, x as int).len(),
            forall|t: int|
                0 <= t < gal@.len() ==> (#[trigger] gal@[t]).0 == galaxies(all, x as int)[t].0 && gal@[t].1
                    == galaxies(all, x as int)[t].1,
            row_gaps@.len() == x,
            forall|t: int| 0 <= t < x ==> row_gaps@[t] == empty_rows(all, t),
            empties == empty_rows(all, x as int),
            empties <= x,
        decreases n - x,
    {
        let (lo, hi) = ls[x];
        let ghost l = all[x as int];
        let ghost before = galaxies(all, x as int);
        row_gaps.push(empties);
        let mut any = false;
        let mut y = lo;
        while y < hi
            invariant
                lo <= y <= hi <= b@.len(),
                x < n,
                l == b@.subrange(lo as int, hi as int),
                gal@.len() == before.len() + row_galaxies(l, x as int, y - lo).len(),
                forall|t: int|
                    0 <= t < gal@.len() ==> (#[trigger] gal@[t]).0 == (before + row_galaxies(l, x as int, y - lo))[t].0
                        && gal@[t].1 == (before + row_galaxies(l, x as int, y - lo))[t].1,
                any == (exists|j: int| 0 <= j < y - lo && l[j] == 35),
            decreases hi - y,
        {
            assert(l[y - lo] == b@[y as int]);
            if b[y] == 35 {
                gal.push((x, y - lo));
                any = true;
            }
            y = y + 1;
        }
        proof {
            assert(galaxies(all, x + 1) == before + row_galaxies(l, x as int, l.len() as int));
            if !any {
                assert(row_empty(all, x as int));
            } else {
                assert(!row_empty(all, x as int));
            }
        }
        if !any {
            empties = empties + 1;
        }
        x = x + 1;
    }
    let ghost gs = galaxies(all, n as int);
    proof {
        lemma_galaxy_bounds(all, n as int);
    }
    if n == 0 {
        return Ok(0);
    }
    let (lo0, hi0) = ls[0];
    let width = hi0 - lo0;
    let mut col_gaps: Vec<u64> = Vec::new();
    let mut empties: u64 = 0;
    let mut y: usize = 0;
    while y < width
        invariant
            y <= width,
            n == ls@.len() == all.len() >= 1,
            width == all[0].len(),
            forall|j: int|
                0 <= j < ls@.len() ==> (#[trigger] ls@[j]).0 <= ls@[j].1 <= b@.len() && b@.subrange(ls@[j].0 as int, ls@[j].1 as int)
                    == all[j],
            col_gaps@.len() == y,
            forall|t: int| 0 <= t < y ==> col_gaps@[t] == empty_cols(all, t),
            row_gaps@.len() == n,
            forall|t: int| 0 <= t < n ==> row_gaps@[t] == empty_rows(all, t),
            gs == galaxies(all, n as int),
            gal@.len() == gs.len(),
            forall|t: int| 0 <= t < gal@.len() ==> (#[trigger] gal@[t]).0 == gs[t].0 && gal@[t].1 == gs[t].1,
            empties == empty_cols(all, y as int),
            empties <= y,
        decreases width - y,
    {
        col_gaps.push(empties);
        {
            let mut found = false;
            let mut x: usize = 0;
            while x < n
                invariant
                    x <= n == ls@.len() == all.len(),
                    y < width,
                    forall|j: int|
                        0 <= j < ls@.len() ==> (#[trigger] ls@[j]).0 <= ls@[j].1 <= b@.len() && b@.subrange(
                            ls@[j].0 as int,
                            ls@[j].1 as int,
                        ) == all[j],
                    found == (exists|t: int| 0 <= t < x && y < all[t].len() && all[t][y as int] == 35),
                    col_gaps@.len() == y + 1,
                    forall|t: int| 0 <= t <= y ==> col_gaps@[t] == empty_cols(all, t),
                    row_gaps@.len() == n,
                    forall|t: int| 0 <= t < n ==> row_gaps@[t] == empty_rows(all, t),
                    gs == galaxies(all, n as int),
                    gal@.len() == gs.len(),
                    forall|t: int| 0 <= t < gal@.len() ==> (#[trigger] gal@[t]).0 == gs[t].0 && gal@[t].1 == gs[t].1,
                    empties == empty_cols(all, y as int),
                    empties <= y,
                decreases n - x,
            {
                let (lo, hi) = ls[x];
                if y < hi - lo {
                    assert(all[x as int][y as int] == b@[lo + y]);
                    if b[lo + y] == 35 {
                        found = true;
                    }
                }
                x = x + 1;
            }
            if !found {
                empties = empties + 1;
            }
        }
        y = y + 1;
    }
    col_gaps.push(empties);
    proof {
        assert forall|t: int| 0 <= t < n implies #[trigger] empty_rows(all, t) <= t by {
            lemma_empty_rows_bound(all, t);
        }
        assert forall|t: int| 0 <= t <= width implies #[trigger] empty_cols(all, t) <= t by {
            lemma_empty_cols_cap(all, t);
        }
        assert(col_gaps@[width as int] == empty_cols(all, width as int));
    }
    let ghost ex = Seq::new(gs.len(), |i: int| expanded(all, f as int, gs[i]));
    let mut pts: Vec<(u128, u128)> = Vec::new();
    let mut k: usize = 0;
    while k < gal.len()
        invariant
            k <= gal@.len() == gs.len() == ex.len(),
            f <= 1_000_000,
            n == all.len() >= 1,
            width == all[0].len(),
            gs == galaxies(all, n as int),
            ex == Seq::new(gs.len(), |i: int| expanded(all, f as int, gs[i])),
            forall|t: int| 0 <= t < gal@.len() ==> (#[trigger] gal@[t]).0 == gs[t].0 && gal@[t].1 == gs[t].1,
            row_gaps@.len() == n,
            forall|t: int| 0 <= t < n ==> row_gaps@[t] == empty_rows(all, t),
            forall|t: int| 0 <= t < n ==> #[trigger] empty_rows(all, t) <= t,
            col_gaps@.len() == width + 1,
            forall|t: int| 0 <= t <= width ==> col_gaps@[t] == empty_cols(all, t),
            forall|t: int| 0 <= t <= width ==> #[trigger] empty_cols(all, t) <= t,
            forall|t: int| 0 <= t < gs.len() ==> 0 <= gs[t].0 < n && 0 <= gs[t].1,
            pts@.len() == k,
            forall|t: int| 0 <= t < k ==> pts@[t].0 == ex[t].0 && pts@[t].1 == ex[t].1,
        decreases gal@.len() - k,
    {
        let (r, c) = gal[k];
        let rg = row_gaps[r as usize];
        let cc = if c < width {
            c
        } else {
            width
        };
        let cg = col_gaps[cc];
        proof {
            lemma_empty_cols_cap(all, c as int);
            assert((f as int) * (rg as int) <= 1_000_000 * 0xffff_ffff_ffff_ffff) by (nonlinear_arith)
                requires
                    0 <= f <= 1_000_000,
                    0 <= rg <= 0xffff_ffff_ffff_ffff,
            ;
            assert((f as int) * (cg as int) <= 1_000_000 * 0xffff_ffff_ffff_ffff) by (nonlinear_arith)
                requires
                    0 <= f <= 1_000_000,
                    0 <= cg <= 0xffff_ffff_ffff_ffff,
            ;
        }
        pts.push(((r as u128) + (f as u128) * (rg as u128), (c as u128) + (f as u128) * (cg as u128)));
        k = k + 1;
    }
    let mut total: u128 = 0;
    let mut big = false;
    let mut i: usize = 0;
    while i < pts.len()
        invariant
            i <= pts@.len() == ex.len(),
            forall|t: int| 0 <= t < pts@.len() ==> pts@[t].0 == ex[t].0 && pts@[t].1 == ex[t].1,
            pair_distances(ex, i as int) >= 0,
            !big ==> total == pair_distances(ex, i as int),
            big ==> pair_distances(ex, i as int) > u64::MAX,
            ex == Seq::new(gs.len(), |i: int| expanded(all, f as int, gs[i])),
            gs == galaxies(all, n as int),
            all == lines(b@),
            b@ == bytes_of(input@),
        decreases pts@.len() - i,
    {
        let mut j: usize = 0;
        let mut sub: u128 = 0;
        while j < i
            invariant
                j <= i < pts@.len() == ex.len(),
                forall|t: int| 0 <= t < pts@.len() ==> pts@[t].0 == ex[t].0 && pts@[t].1 == ex[t].1,
                pair_distances(ex, i as int) >= 0,
                distances_to(ex, i as int, j as int) >= 0,
                !big ==> sub == distances_to(ex, i as int, j as int) && total == pair_distances(ex, i as int),
                big ==> pair_distances(ex, i as int) + distances_to(ex, i as int, j as int) > u64::MAX,
            decreases i - j,
        {
            let (a0, a1) = pts[i];
            let (b0, b1) = pts[j];
            let d0 = if a0 >= b0 {
                a0 - b0
            } else {
                b0 - a0
            };
            let d1 = if a1 >= b1 {
                a1 - b1
            } else {
                b1 - a1
            };
            match d0.checked_add(d1) {
                Some(d) => {
                    if !big {
                        match sub.checked_add(d) {
                            Some(v) => {
                                sub = v;
                            },
                            None => {
                                big = true;
                            },
                        }
                    }
                },
                None => {
                    big = true;
                },
            }
            j = j + 1;
        }
        if !big {
            match total.checked_add(sub) {
                Some(v) => {
                    total = v;
                },
                None => {
                    big = true;
                },
            }
        }
        i = i + 1;
    }
    if big || total > 0xffff_ffff_ffff_ffff {
        Err(InputError::TooLarge)
    } else {
        Ok(total as u64)
    }
}

proof fn lemma_row_galaxy_bounds(l: Seq<u8>, i: int, m: int)
    ensures
        forall|t: int| 0 <= t < row_galaxies(l, i, m).len() ==> (#[trigger] row_galaxies(l, i, m)[t]).0 == i && 0
            <= row_galaxies(l, i, m)[t].1 < m,
    decreases m,
{
    if m > 0 {
        lemma_row_galaxy_bounds(l, i, m - 1);
        let a = row_galaxies(l, i, m - 1);
        assert forall|t: int| 0 <= t < row_galaxies(l, i, m).len() implies (#[trigger] row_galaxies(l, i, m)[t]).0 == i
            && 0 <= row_galaxies(l, i, m)[t].1 < m by {
            if t < a.len() {
                assert(row_galaxies(l, i, m)[t] == a[t]);
            }
        }
    }
}

proof fn lemma_galaxy_bounds(ls: Seq<Seq<u8>>, n: int)
    ensures
        forall|t: int| 0 <= t < galaxies(ls, n).len() ==> 0 <= (#[trigger] galaxies(ls, n)[t]).0 < n && 0
            <= galaxies(ls, n)[t].1,
    decreases n,
{
    if n > 0 {
        lemma_galaxy_bounds(ls, n - 1);
        lemma_row_galaxy_bounds(ls[n - 1], n - 1, ls[n - 1].len() as int);
        let a = galaxies(ls, n - 1);
        let r = row_galaxies(ls[n - 1], n - 1, ls[n - 1].len() as int);
        assert forall|t: int| 0 <= t < galaxies(ls, n).len() implies 0 <= (#[trigger] galaxies(ls, n)[t]).0 < n && 0
            <= galaxies(ls, n)[t].1 by {
            if t < a.len() {
                assert(galaxies(ls, n)[t] == a[t]);
            } else {
                assert(galaxies(ls, n)[t] == r[t - a.len()]);
            }
        }
    }
}

proof fn lemma_empty_cols_cap(ls: Seq<Seq<u8>>, c: int)
    requires
        ls.len() >= 1,
        c >= 0,
    ensures
        c > ls[0].len() ==> empty_cols(ls, c) == empty_cols(ls, ls[0].len() as int),
        0 <= empty_cols(ls, c) <= c,
    decreases c,
{
    if c > 0 {
        lemma_empty_cols_cap(ls, c - 1);
    }
}

proof fn lemma_empty_rows_bound(ls: Seq<Seq<u8>>, r: int)
    requires
        r >= 0,
    ensures
        0 <= empty_rows(ls, r) <= r,
    decreases r,
{
    if r > 0 {
        lemma_empty_rows_bound(ls, r - 1);
    }
}

/// Sum of the distances between each pair of galaxies, each empty row and column
/// counting twice.
pub fn run_part_1(input: String) -> (r: Result<u64, InputError>)
    ensures
        ({
            let v = expanded_distances(lines(bytes_of(input@)), 1);
            if v <= u64::MAX {
                r == Ok::<u64, InputError>(v as u64)
            } else {
                r == Err::<u64, InputError>(InputError::TooLarge)
            }
        }),
{
    galaxy_distances(&input, 1)
}

/// Sum of the distances between each pair of galaxies, each empty row and column
/// counting a million times.
pub fn run_part_2(input: String) -> (r: Result<u64, InputError>)
    ensures
        ({
            let v = expanded_distances(lines(bytes_of(input@)), 999_999);
            if v <= u64::MAX {
                r == Ok::<u64, InputError>(v as u64)
            } else {
                r == Err::<u64, InputError>(InputError::TooLarge)
            }
        }),
{
    galaxy_distances(&input, 999_999)
}

} // verus!
