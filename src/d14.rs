use vstd::prelude::*;
use crate::text::bytes_of;
use crate::text::line_bounds;
use crate::text::lines;
use crate::text::InputError;

verus! {

/// The platform is a rectangle of `.` (empty), `#` (cube rock) and `O` (round rock).
pub open spec fn platform_ok(ls: Seq<Seq<u8>>) -> bool {
    &&& ls.len() >= 1
    &&& forall|x: int| 0 <= x < ls.len() ==> (#[trigger] ls[x]).len() == ls[0].len()
    &&& forall|x: int, y: int|
        0 <= x < ls.len() && 0 <= y < ls[x].len() ==> {
            let c = #[trigger] ls[x][y];
            c == 46 || c == 35 || c == 79
        }
}

/// Load on the north side from column `c`, after rolling its round rocks north, over
/// its first `n` rows: the load so far and the first row still free.
pub open spec fn roll(ls: Seq<Seq<u8>>, c: int, n: int) -> (int, int)
    decreases n,
{
    if n <= 0 {
        (0, 0)
    } else {
        let (load, free) = roll(ls, c, n - 1);
        let cell = ls[n - 1][c];
        if cell == 35 {
            (load, n)
        } else if cell == 79 {
            (load + ls.len() - free, free + 1)
        } else {
            (load, free)
        }
    }
}

/// Total north load of the first `w` columns.
pub open spec fn north_load(ls: Seq<Seq<u8>>, w: int) -> int
    decreases w,
{
    if w <= 0 {
        0
    } else {
        north_load(ls, w - 1) + roll(ls, w - 1, ls.len() as int).0
    }
}

proof fn lemma_roll_bounds(ls: Seq<Seq<u8>>, c: int, n: int)
    requires
        0 <= n <= ls.len(),
    ensures
        0 <= roll(ls, c, n).1 <= n,
        0 <= roll(ls, c, n).0 <= n * ls.len(),
    decreases n,
{
    if n > 0 {
        lemma_roll_bounds(ls, c, n - 1);
        assert((n - 1) * ls.len() + ls.len() == n * ls.len()) by (nonlinear_arith);
    }
}

/// Total load on the north support beams once every round rock has rolled north.
pub fn run_part_1(input: String) -> (r: Result<u64, InputError>)
    ensures
        !platform_ok(lines(bytes_of(input@))) <==> r == Err::<u64, InputError>(InputError::Malformed),
        platform_ok(lines(bytes_of(input@))) ==> {
            let v = north_load(lines(bytes_of(input@)), lines(bytes_of(input@))[0].len() as int);
            if v <= u64::MAX {
                r == Ok::<u64, InputError>(v as u64)
            } else {
                r == Err::<u64, InputError>(InputError::TooLarge)
            }
        },
{
    let b = input.as_str().as_bytes();
    let ls = line_bounds(b);
    let ghost all = lines(b@);
    let n = ls.len();
    if n == 0 {
        return Err(InputError::Malformed);
    }
    let (lo0, hi0) = ls[0];
    let w = hi0 - lo0;
    let mut x: usize = 0;
    while x < n
        invariant
            x <= n == ls@.len() == all.len(),
            all == lines(b@),
            b@ == bytes_of(input@),
            w == all[0].len(),
            forall|j: int|
                0 <= j < ls@.len() ==> (#[trigger] ls@[j]).0 <= ls@[j].1 <= b@.len() && b@.subrange(ls@[j].0 as int, ls@[j].1 as int)
                    == all[j],
            forall|t: int| 0 <= t < x ==> (#[trigger] all[t]).len() == w,
            forall|t: int, y: int|
                0 <= t < x && 0 <= y < all[t].len() ==> {
                    let c = #[trigger] all[t][y];
                    c == 46 || c == 35 || c == 79
                },
        decreases n - x,
    {
        let (lo, hi) = ls[x];
        if hi - lo != w {
            return Err(InputError::Malformed);
        }
        let mut y = lo;
        while y < hi
            invariant
                lo <= y <= hi <= b@.len(),
                x < n == all.len(),
                all == lines(b@),
                b@ == bytes_of(input@),
                all[x as int] == b@.subrange(lo as int, hi as int),
                forall|t: int| 0 <= t < y - lo ==> {
                    let c = #[trigger] all[x as int][t];
                    c == 46 || c == 35 || c == 79
                },
            decreases hi - y,
        {
            let c = b[y];
            assert(all[x as int][y - lo] == c);
            if !(c == 46 || c == 35 || c == 79) {
                assert(!platform_ok(all));
                return Err(InputError::Malformed);
            }
            y = y + 1;
        }
        x = x + 1;
    }
    assert(platform_ok(all));
    let mut total: u128 = 0;
    let mut big = false;
    let mut c: usize = 0;
    while c < w
        invariant
            c <= w == all[0].len(),
            n == ls@.len() == all.len(),
            all == lines(b@),
            b@ == bytes_of(input@),
            platform_ok(all),
            forall|j: int|
                0 <= j < ls@.len() ==> (#[trigger] ls@[j]).0 <= ls@[j].1 <= b@.len() && b@.subrange(ls@[j].0 as int, ls@[j].1 as int)
                    == all[j],
            !big ==> total == north_load(all, c as int),
            big ==> north_load(all, c as int) > u64::MAX,
            north_load(all, c as int) >= 0,
        decreases w - c,
    {
        let mut load: u128 = 0;
        let mut free: usize = 0;
        let mut x: usize = 0;
        while x < n
            invariant
                x <= n == ls@.len() == all.len(),
                c < w == all[0].len(),
                platform_ok(all),
                forall|j: int|
                    0 <= j < ls@.len() ==> (#[trigger] ls@[j]).0 <= ls@[j].1 <= b@.len() && b@.subrange(
                        ls@[j].0 as int,
                        ls@[j].1 as int,
                    ) == all[j],
                (load as int, free as int) == roll(all, c as int, x as int),
            decreases n - x,
        {
            proof {
                lemma_roll_bounds(all, c as int, x as int);
            }
            let (lo, hi) = ls[x];
            assert(all[x as int].len() == w);
            let cell = b[lo + c];
            assert(all[x as int][c as int] == cell);
            if cell == 35 {
                free = x + 1;
            } else if cell == 79 {
                assert((load as int) + (n - free) <= (x + 1) * n) by (nonlinear_arith)
                    requires
                        load <= x * n,
                        free <= x,
                ;
                assert((x + 1) * n <= n * n) by (nonlinear_arith)
                    requires
                        x < n,
                ;
                assert(n * n <= 0xffff_ffff_ffff_ffff * 0xffff_ffff_ffff_ffff) by (nonlinear_arith)
                    requires
                        n <= 0xffff_ffff_ffff_ffff,
                ;
                load = load + (n - free) as u128;
                free = free + 1;
            }
            x = x + 1;
        }
        proof {
            lemma_roll_bounds(all, c as int, n as int);
            assert((c + 1) * n * n == c * n * n + n * n) by (nonlinear_arith);
            assert(n * n <= 0xffff_ffff_ffff_ffff * 0xffff_ffff_ffff_ffff) by (nonlinear_arith)
                requires
                    n <= 0xffff_ffff_ffff_ffff,
            ;
            assert((c + 1) * n * n <= 0xffff_ffff_ffff_ffff * 0xffff_ffff_ffff_ffff * 0xffff_ffff_ffff_ffff) by (
            nonlinear_arith)
                requires
                    c + 1 <= 0xffff_ffff_ffff_ffff,
                    n <= 0xffff_ffff_ffff_ffff,
            ;
        }
        if !big {
            match total.checked_add(load) {
                Some(t) => {
                    total = t;
                },
                None => {
                    big = true;
                },
            }
        }
        c = c + 1;
    }
    if big || total > 0xffff_ffff_ffff_ffff {
        return Err(InputError::TooLarge);
    }
    Ok(total as u64)
}

} // verus!
