use vstd::prelude::*;
use crate::text::bytes_of;
use crate::text::line_bounds;
use crate::text::lines;
use crate::text::InputError;

verus! {

/// A garden map: a non-empty rectangle of `.` (plot), `#` (rock) and `S` (the start,
/// itself a plot).
pub open spec fn garden_ok(ls: Seq<Seq<u8>>) -> bool {
    &&& ls.len() >= 1
    &&& forall|x: int| 0 <= x < ls.len() ==> (#[trigger] ls[x]).len() == ls[0].len()
    &&& forall|x: int, y: int|
        0 <= x < ls.len() && 0 <= y < ls[x].len() ==> {
            let c = #[trigger] ls[x][y];
            c == 46 || c == 35 || c == 83
        }
}

pub open spec fn plot(ls: Seq<Seq<u8>>, x: int, y: int) -> bool {
    0 <= x < ls.len() && 0 <= y < ls[x].len() && ls[x][y] != 35
}

/// The elf can stand on (x, y) after exactly `k` steps from `s`.
pub open spec fn reach(ls: Seq<Seq<u8>>, s: (int, int), k: nat, x: int, y: int) -> bool
    decreases k,
{
    if k == 0 {
        x == s.0 && y == s.1
    } else {
        plot(ls, x, y) && (reach(ls, s, (k - 1) as nat, x - 1, y) || reach(ls, s, (k - 1) as nat, x + 1, y) || reach(
            ls,
            s,
            (k - 1) as nat,
            x,
            y - 1,
        ) || reach(ls, s, (k - 1) as nat, x, y + 1))
    }
}

/// Cells of row `x`, among its first `n`, reachable in exactly `k` steps.
pub open spec fn row_count(ls: Seq<Seq<u8>>, s: (int, int), k: nat, x: int, n: int) -> int
    decreases n,
{
    if n <= 0 {
        0
    } else {
        row_count(ls, s, k, x, n - 1) + if reach(ls, s, k, x, n - 1) {
            1int
        } else {
            0int
        }
    }
}

/// Cells of the first `m` rows reachable in exactly `k` steps.
pub open spec fn reach_count(ls: Seq<Seq<u8>>, s: (int, int), k: nat, m: int) -> int
    decreases m,
{
    if m <= 0 {
        0
    } else {
        reach_count(ls, s, k, m - 1) + row_count(ls, s, k, m - 1, ls[m - 1].len() as int)
    }
}

/// The first `S` of the rows before `m`, row after row.
pub open spec fn start_before(ls: Seq<Seq<u8>>, m: int) -> Option<(int, int)>
    decreases m,
{
    if m <= 0 {
        None
    } else {
        match start_before(ls, m - 1) {
            Some(p) => Some(p),
            None => match first_in_row(ls[m - 1], ls[m - 1].len() as int) {
                Some(y) => Some((m - 1, y)),
                None => None,
            },
        }
    }
}

pub open spec fn first_in_row(l: Seq<u8>, n: int) -> Option<int>
    decreases n,
{
    if n <= 0 {
        None
    } else {
        match first_in_row(l, n - 1) {
            Some(y) => Some(y),
            None => if l[n - 1] == 83 {
                Some(n - 1)
            } else {
                None
            },
        }
    }
}

proof fn lemma_first_in_row(l: Seq<u8>, n: int)
    requires
        n <= l.len(),
    ensures
        first_in_row(l, n) matches Some(y) ==> 0 <= y < n && l[y] == 83,
    decreases n,
{
    if n > 0 {
        lemma_first_in_row(l, n - 1);
    }
}

proof fn lemma_start_is_plot(ls: Seq<Seq<u8>>, m: int)
    requires
        m <= ls.len(),
    ensures
        start_before(ls, m) matches Some(p) ==> plot(ls, p.0, p.1) && ls[p.0][p.1] == 83,
    decreases m,
{
    if m > 0 {
        lemma_start_is_plot(ls, m - 1);
        lemma_first_in_row(ls[m - 1], ls[m - 1].len() as int);
    }
}

proof fn lemma_reach_inside(ls: Seq<Seq<u8>>, s: (int, int), k: nat, x: int, y: int)
    requires
        plot(ls, s.0, s.1),
    ensures
        reach(ls, s, k, x, y) ==> plot(ls, x, y),
    decreases k,
{
}

/// Number of garden plots the elf can reach in exactly `steps` steps from `S`.
pub fn run_part_1(input: String, steps: usize) -> (r: Result<u64, InputError>)
    ensures
        match (garden_ok(lines(bytes_of(input@))), start_before(lines(bytes_of(input@)), lines(bytes_of(input@)).len() as int)) {
            (true, Some(s)) => {
                let c = reach_count(lines(bytes_of(input@)), s, steps as nat, lines(bytes_of(input@)).len() as int);
                if c <= u64::MAX {
                    r == Ok::<u64, InputError>(c as u64)
                } else {
                    r == Err::<u64, InputError>(InputError::TooLarge)
                }
            },
            _ => r == Err::<u64, InputError>(InputError::Malformed),
        },
{
    let b = input.as_str().as_bytes();
    let ls = line_bounds(b);
    let ghost g = lines(b@);
    let n = ls.len();
    if n == 0 {
        return Err(InputError::Malformed);
    }
    let (lo0, hi0) = ls[0];
    let w = hi0 - lo0;
    // read the map, checking its shape, and find the start
    let mut open: Vec<Vec<bool>> = Vec::new();
    let mut start: Option<(usize, usize)> = None;
    let mut x: usize = 0;
    while x < n
        invariant
            x <= n == ls@.len() == g.len(),
            g == lines(b@),
            b@ == bytes_of(input@),
            w == g[0].len(),
            forall|j: int|
                0 <= j < ls@.len() ==> (#[trigger] ls@[j]).0 <= ls@[j].1 <= b@.len() && b@.subrange(ls@[j].0 as int, ls@[j].1 as int)
                    == g[j],
            forall|t: int| 0 <= t < x ==> (#[trigger] g[t]).len() == w,
            forall|t: int, y: int|
                0 <= t < x && 0 <= y < g[t].len() ==> {
                    let c = #[trigger] g[t][y];
                    c == 46 || c == 35 || c == 83
                },
            open@.len() == x,
            forall|t: int| 0 <= t < x ==> (#[trigger] open@[t])@.len() == w,
            forall|t: int, y: int| 0 <= t < x && 0 <= y < w ==> (#[trigger] open@[t]@[y]) == plot(g, t, y),
            match start {
                Some(p) => start_before(g, x as int) == Some((p.0 as int, p.1 as int)) && p.0 < x && p.1 < w,
                None => start_before(g, x as int) is None,
            },
        decreases n - x,
    {
        let (lo, hi) = ls[x];
        if hi - lo != w {
            return Err(InputError::Malformed);
        }
        let mut row: Vec<bool> = Vec::new();
        let mut first: Option<usize> = None;
        let mut y: usize = 0;
        while y < w
            invariant
                x < n == g.len(),
                lo + w == hi <= b@.len(),
                g == lines(b@),
                b@ == bytes_of(input@),
                g[x as int] == b@.subrange(lo as int, hi as int),
                forall|t: int| 0 <= t < x ==> (#[trigger] g[t]).len() == w,
                y <= w,
                row@.len() == y,
                forall|t: int| 0 <= t < y ==> (#[trigger] row@[t]) == plot(g, x as int, t),
                forall|t: int| 0 <= t < y ==> {
                    let c = #[trigger] g[x as int][t];
                    c == 46 || c == 35 || c == 83
                },
                match first {
                    Some(f) => first_in_row(g[x as int], y as int) == Some(f as int) && f < y,
                    None => first_in_row(g[x as int], y as int) is None,
                },
            decreases w - y,
        {
            let c = b[lo + y];
            assert(g[x as int][y as int] == c);
            if !(c == 46 || c == 35 || c == 83) {
                assert(!garden_ok(g));
                return Err(InputError::Malformed);
            }
            if c == 83 && first.is_none() {
                first = Some(y);
            }
            row.push(c != 35);
            y = y + 1;
        }
        if start.is_none() {
            match first {
                Some(f) => {
                    start = Some((x, f));
                },
                None => {},
            }
        }
        open.push(row);
        x = x + 1;
    }
    assert(garden_ok(g));
    let (sx, sy) = match start {
        Some(p) => p,
        None => {
            return Err(InputError::Malformed);
        },
    };
    let ghost s = (sx as int, sy as int);
    proof {
        lemma_start_is_plot(g, n as int);
    }
    // cells reachable in exactly k steps
    let mut cur: Vec<Vec<bool>> = Vec::new();
    let mut x: usize = 0;
    while x < n
        invariant
            x <= n == open@.len(),
            s == (sx as int, sy as int),
            cur@.len() == x,
            forall|t: int| 0 <= t < x ==> (#[trigger] cur@[t])@.len() == w,
            forall|t: int, y: int| 0 <= t < x && 0 <= y < w ==> (#[trigger] cur@[t]@[y]) == reach(g, s, 0, t, y),
        decreases n - x,
    {
        let mut row: Vec<bool> = Vec::new();
        let mut y: usize = 0;
        while y < w
            invariant
                x < n,
                s == (sx as int, sy as int),
                y <= w,
                row@.len() == y,
                forall|t: int| 0 <= t < y ==> (#[trigger] row@[t]) == reach(g, s, 0, x as int, t),
            decreases w - y,
        {
            row.push(x == sx && y == sy);
            y = y + 1;
        }
        cur.push(row);
        x = x + 1;
    }
    let mut k: usize = 0;
    while k < steps
        invariant
            k <= steps,
            n == open@.len() == cur@.len() == g.len(),
            garden_ok(g),
            w == g[0].len(),
            plot(g, s.0, s.1),
            forall|t: int| 0 <= t < n ==> (#[trigger] open@[t])@.len() == w,
            forall|t: int, y: int| 0 <= t < n && 0 <= y < w ==> (#[trigger] open@[t]@[y]) == plot(g, t, y),
            forall|t: int| 0 <= t < n ==> (#[trigger] cur@[t])@.len() == w,
            forall|t: int, y: int| 0 <= t < n && 0 <= y < w ==> (#[trigger] cur@[t]@[y]) == reach(g, s, k as nat, t, y),
        decreases steps - k,
    {
        let mut next: Vec<Vec<bool>> = Vec::new();
        let mut x: usize = 0;
        while x < n
            invariant
                x <= n == open@.len() == cur@.len() == g.len(),
                k < steps,
                garden_ok(g),
                w == g[0].len(),
                plot(g, s.0, s.1),
                forall|t: int| 0 <= t < n ==> (#[trigger] open@[t])@.len() == w,
                forall|t: int, y: int| 0 <= t < n && 0 <= y < w ==> (#[trigger] open@[t]@[y]) == plot(g, t, y),
                forall|t: int| 0 <= t < n ==> (#[trigger] cur@[t])@.len() == w,
                forall|t: int, y: int| 0 <= t < n && 0 <= y < w ==> (#[trigger] cur@[t]@[y]) == reach(g, s, k as nat, t, y),
                next@.len() == x,
                forall|t: int| 0 <= t < x ==> (#[trigger] next@[t])@.len() == w,
                forall|t: int, y: int|
                    0 <= t < x && 0 <= y < w ==> (#[trigger] next@[t]@[y]) == reach(g, s, (k + 1) as nat, t, y),
            decreases n - x,
        {
            let mut row: Vec<bool> = Vec::new();
            let mut y: usize = 0;
            while y < w
                invariant
                    x < n == open@.len() == cur@.len() == g.len(),
                    garden_ok(g),
                    w == g[0].len(),
                    plot(g, s.0, s.1),
                    forall|t: int| 0 <= t < n ==> (#[trigger] open@[t])@.len() == w,
                    forall|t: int, y: int| 0 <= t < n && 0 <= y < w ==> (#[trigger] open@[t]@[y]) == plot(g, t, y),
                    forall|t: int| 0 <= t < n ==> (#[trigger] cur@[t])@.len() == w,
                    forall|t: int, y: int| 0 <= t < n && 0 <= y < w ==> (#[trigger] cur@[t]@[y]) == reach(g, s, k as nat, t, y),
                    y <= w,
                    row@.len() == y,
                    forall|t: int| 0 <= t < y ==> (#[trigger] row@[t]) == reach(g, s, (k + 1) as nat, x as int, t),
                decreases w - y,
            {
                let up = x > 0 && cur[x - 1][y];
                let down = x + 1 < n && cur[x + 1][y];
                let left = y > 0 && cur[x][y - 1];
                let right = y + 1 < w && cur[x][y + 1];
                proof {
                    assert(g[x as int].len() == w);
                    lemma_reach_inside(g, s, k as nat, x - 1, y as int);
                    lemma_reach_inside(g, s, k as nat, x + 1, y as int);
                    lemma_reach_inside(g, s, k as nat, x as int, y - 1);
                    lemma_reach_inside(g, s, k as nat, x as int, y + 1);
                    if x + 1 < n {
                        assert(g[x + 1].len() == w);
                    }
                    if x > 0 {
                        assert(g[x - 1].len() == w);
                    }
                }
                row.push(open[x][y] && (up || down || left || right));
                y = y + 1;
            }
            next.push(row);
            x = x + 1;
        }
        cur = next;
        k = k + 1;
    }
    let mut total: u128 = 0;
    let mut x: usize = 0;
    while x < n
        invariant
            x <= n == cur@.len() == g.len(),
            n <= 0xffff_ffff_ffff_ffff,
            w <= 0xffff_ffff_ffff_ffff,
            garden_ok(g),
            w == g[0].len(),
            forall|t: int| 0 <= t < n ==> (#[trigger] cur@[t])@.len() == w,
            forall|t: int, y: int| 0 <= t < n && 0 <= y < w ==> (#[trigger] cur@[t]@[y]) == reach(g, s, steps as nat, t, y),
            total == reach_count(g, s, steps as nat, x as int),
            total <= x * w,
        decreases n - x,
    {
        let mut y: usize = 0;
        let mut row: u64 = 0;
        while y < w
            invariant
                x < n == cur@.len() == g.len(),
                garden_ok(g),
                w == g[0].len(),
                forall|t: int| 0 <= t < n ==> (#[trigger] cur@[t])@.len() == w,
                forall|t: int, y: int| 0 <= t < n && 0 <= y < w ==> (#[trigger] cur@[t]@[y]) == reach(g, s, steps as nat, t, y),
                y <= w,
                row == row_count(g, s, steps as nat, x as int, y as int),
                row <= y,
            decreases w - y,
        {
            if cur[x][y] {
                row = row + 1;
            }
            y = y + 1;
        }
        proof {
            assert(g[x as int].len() == w);
            assert((x + 1) * w == x * w + w) by (nonlinear_arith);
            assert((x + 1) * w <= n * w) by (nonlinear_arith)
                requires
                    x < n,
            ;
            assert(n * w <= 0xffff_ffff_ffff_ffff * 0xffff_ffff_ffff_ffff) by (nonlinear_arith)
                requires
                    n <= 0xffff_ffff_ffff_ffff,
                    w <= 0xffff_ffff_ffff_ffff,
            ;
        }
        total = total + row as u128;
        x = x + 1;
    }
    if total > 0xffff_ffff_ffff_ffff {
        return Err(InputError::TooLarge);
    }
    Ok(total as u64)
}

} // verus!
