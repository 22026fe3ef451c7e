use vstd::prelude::*;
use crate::text::bytes_of;
use crate::text::line_bounds;
use crate::text::lines;
use crate::text::number;
use crate::text::parse_decimal;
use crate::text::split;
use crate::text::split_bounds;
use crate::text::InputError;

verus! {

/// A run of `len` damaged springs can start at `i`: it stays in the row, holds no
/// operational spring (`.`) and is not followed by a damaged one (`#`).
pub open spec fn fits_group(s: Seq<u8>, i: int, len: int) -> bool {
    &&& i + len <= s.len()
    &&& forall|k: int| i <= k < i + len ==> s[k] != 46
    &&& (i + len < s.len() ==> s[i + len] != 35)
}

pub open spec fn no_damaged_from(s: Seq<u8>, i: int) -> bool {
    forall|k: int| i <= k < s.len() ==> s[k] != 35
}

/// Number of ways to read the springs from `i` on so that their damaged runs are the
/// groups from `g` on.
pub open spec fn solutions(s: Seq<u8>, gs: Seq<u64>, i: int, g: int) -> int
    decreases s.len() + 1 - i,
{
    if g >= gs.len() {
        if i >= s.len() || no_damaged_from(s, i) {
            1
        } else {
            0
        }
    } else if i >= s.len() || i < 0 {
        0
    } else if s[i] == 46 {
        solutions(s, gs, i + 1, g)
    } else if s[i] == 35 {
        if fits_group(s, i, gs[g] as int) {
            solutions(s, gs, i + gs[g] + 1, g + 1)
        } else {
            0
        }
    } else {
        (if fits_group(s, i, gs[g] as int) {
            solutions(s, gs, i + gs[g] + 1, g + 1)
        } else {
            0
        }) + solutions(s, gs, i + 1, g)
    }
}

/// A record line: springs (`.`, `#`, `?`), a space, and comma-separated group sizes.
pub open spec fn record(l: Seq<u8>) -> Option<(Seq<u8>, Seq<u64>)> {
    let ps = split(l, 32);
    if ps.len() == 2 && forall|k: int| 0 <= k < ps[0].len() ==> {
        let c = #[trigger] ps[0][k];
        c == 46 || c == 35 || c == 63
    } {
        match groups_of(split(ps[1], 44), split(ps[1], 44).len() as int) {
            Some(gs) => Some((ps[0], gs)),
            None => None,
        }
    } else {
        None
    }
}

pub open spec fn groups_of(fs: Seq<Seq<u8>>, n: int) -> Option<Seq<u64>>
    decreases n,
{
    if n <= 0 {
        Some(seq![])
    } else {
        match (groups_of(fs, n - 1), number(fs[n - 1])) {
            (Some(gs), Some(v)) => Some(gs.push(v)),
            _ => None,
        }
    }
}

/// Five copies of the springs joined by `?`, and five copies of the groups.
pub open spec fn unfold(s: Seq<u8>, gs: Seq<u64>) -> (Seq<u8>, Seq<u64>) {
    let q = seq![63u8];
    (s + q + s + q + s + q + s + q + s, gs + gs + gs + gs + gs)
}

/// Sum of the arrangements of each record, unfolded first when `unfolded`.
pub open spec fn arrangements(ls: Seq<Seq<u8>>, n: int, unfolded: bool) -> Option<int>
    decreases n,
{
    if n <= 0 {
        Some(0)
    } else {
        match (arrangements(ls, n - 1, unfolded), record(ls[n - 1])) {
            (Some(x), Some((s, gs))) => {
                let (s2, g2) = if unfolded {
                    unfold(s, gs)
                } else {
                    (s, gs)
                };
                Some(x + solutions(s2, g2, 0, 0))
            },
            _ => None,
        }
    }
}

/// The table of counts for `s` and `gs` can be held: its dimensions fit in a `usize`
/// and each count in a `u128`.
pub open spec fn table_fits(s: Seq<u8>, gs: Seq<u64>) -> bool {
    &&& s.len() < usize::MAX - 2
    &&& gs.len() < usize::MAX - 2
    &&& forall|i: int, g: int| 0 <= i <= s.len() + 1 && 0 <= g <= gs.len() ==> #[trigger] solutions(s, gs, i, g) <= u128::MAX
}

/// The tables of the first `n` records fit (see `table_fits`).
pub open spec fn records_fit(ls: Seq<Seq<u8>>, n: int, unfolded: bool) -> bool
    decreases n,
{
    if n <= 0 {
        true
    } else {
        records_fit(ls, n - 1, unfolded) && match record(ls[n - 1]) {
            Some((s, gs)) => {
                let (s2, g2) = if unfolded {
                    unfold(s, gs)
                } else {
                    (s, gs)
                };
                table_fits(s2, g2)
            },
            None => true,
        }
    }
}

fn fits_exec(s: &Vec<u8>, i: usize, len: u64) -> (r: bool)
    ensures
        r == fits_group(s@, i as int, len as int),
{
    let n = s.len();
    if i > n || (len as u128) > ((n - i) as u128) {
        return false;
    }
    let m = len as usize;
    let mut k: usize = 0;
    while k < m
        invariant
            k <= m,
            m == len,
            i + m <= n == s@.len(),
            forall|t: int| i <= t < i + k ==> s@[t] != 46,
        decreases m - k,
    {
        if s[i + k] == 46 {
            assert(s@[i + k] == 46);
            return false;
        }
        k = k + 1;
    }
    if i + m < n && s[i + m] == 35 {
        return false;
    }
    true
}

fn no_damaged_exec(s: &Vec<u8>, i: usize) -> (r: bool)
    ensures
        r == no_damaged_from(s@, i as int),
{
    let mut k = i;
    while k < s.len()
        invariant
            i <= k,
            forall|t: int| i <= t < k && t < s@.len() ==> s@[t] != 35,
        decreases s@.len() - k,
    {
        if s[k] == 35 {
            return false;
        }
        k = k + 1;
    }
    true
}

/// Number of arrangements of the springs `s` that match the groups `gs`; `None` when the
/// count leaves `u128`.
fn count_arrangements(s: &Vec<u8>, gs: &Vec<u64>) -> (r: Option<u128>)
    ensures
        r is Some <==> table_fits(s@, gs@),
        r matches Some(v) ==> v == solutions(s@, gs@, 0, 0),
{
    let n = s.len();
    let ng = gs.len();
    if n >= usize::MAX - 2 || ng >= usize::MAX - 2 {
        return None;
    }
    // rows[k] holds the counts from spring n + 1 - k on, for every group index
    let mut rows: Vec<Vec<u128>> = Vec::new();
    let mut i: usize = n + 2;
    while i > 0
        invariant
            n == s@.len(),
            n < usize::MAX - 2,
            ng == gs@.len(),
            ng < usize::MAX - 2,
            i <= n + 2,
            rows@.len() == n + 2 - i,
            forall|k: int|
                0 <= k < rows@.len() ==> (#[trigger] rows@[k])@.len() == ng + 1 && forall|g: int|
                    0 <= g <= ng ==> (#[trigger] rows@[k]@[g]) == solutions(s@, gs@, n + 1 - k, g),
        decreases i,
    {
        i = i - 1;
        let mut row: Vec<u128> = Vec::new();
        let mut g: usize = 0;
        while g <= ng
            invariant
                n == s@.len(),
                n < usize::MAX - 2,
                ng == gs@.len(),
                ng < usize::MAX - 2,
                i <= n + 1,
                rows@.len() == n + 1 - i,
                forall|k: int|
                    0 <= k < rows@.len() ==> (#[trigger] rows@[k])@.len() == ng + 1 && forall|g: int|
                        0 <= g <= ng ==> (#[trigger] rows@[k]@[g]) == solutions(s@, gs@, n + 1 - k, g),
                g <= ng + 1,
                row@.len() == g,
                forall|t: int| 0 <= t < g ==> row@[t] == solutions(s@, gs@, i as int, t),
            decreases ng + 1 - g,
        {
            let v: u128 = if g == ng {
                if i >= n || no_damaged_exec(s, i) {
                    1
                } else {
                    0
                }
            } else if i >= n {
                0
            } else {
                let c = s[i];
                let take: u128 = if c != 46 && fits_exec(s, i, gs[g]) {
                    let j = i + (gs[g] as usize) + 1;
                    let k = n + 1 - j;
                    assert(0 <= k < rows@.len());
                    rows[k][g + 1]
                } else {
                    0
                };
                let skip: u128 = if c != 35 {
                    let k = n - i;
                    rows[k][g]
                } else {
                    0
                };
                match take.checked_add(skip) {
                    Some(v) => v,
                    None => {
                        assert(solutions(s@, gs@, i as int, g as int) > u128::MAX);
                        return None;
                    },
                }
            };
            row.push(v);
            g = g + 1;
        }
        rows.push(row);
    }
    proof {
        assert forall|i: int, g: int| 0 <= i <= s@.len() + 1 && 0 <= g <= gs@.len() implies #[trigger] solutions(
            s@,
            gs@,
            i,
            g,
        ) <= u128::MAX by {
            let k = n + 1 - i;
            assert(rows@[k]@[g] == solutions(s@, gs@, n + 1 - k, g));
        }
    }
    Some(rows[n + 1][0])
}


fn append_bytes(dst: &mut Vec<u8>, src: &Vec<u8>)
    ensures
        final(dst)@ == old(dst)@ + src@,
{
    let mut k: usize = 0;
    while k < src.len()
        invariant
            k <= src@.len(),
            dst@ == old(dst)@ + src@.take(k as int),
        decreases src@.len() - k,
    {
        assert(src@.take(k + 1) =~= src@.take(k as int).push(src@[k as int]));
        assert(old(dst)@ + src@.take(k + 1) =~= (old(dst)@ + src@.take(k as int)).push(src@[k as int]));
        dst.push(src[k]);
        k = k + 1;
    }
    assert(src@.take(k as int) =~= src@);
}

fn append_groups(dst: &mut Vec<u64>, src: &Vec<u64>)
    ensures
        final(dst)@ == old(dst)@ + src@,
{
    let mut k: usize = 0;
    while k < src.len()
        invariant
            k <= src@.len(),
            dst@ == old(dst)@ + src@.take(k as int),
        decreases src@.len() - k,
    {
        assert(src@.take(k + 1) =~= src@.take(k as int).push(src@[k as int]));
        assert(old(dst)@ + src@.take(k + 1) =~= (old(dst)@ + src@.take(k as int)).push(src@[k as int]));
        dst.push(src[k]);
        k = k + 1;
    }
    assert(src@.take(k as int) =~= src@);
}

fn parse_record(b: &[u8], lo: usize, hi: usize) -> (r: Option<(Vec<u8>, Vec<u64>)>)
    requires
        lo <= hi <= b@.len(),
    ensures
        r is Some <==> record(b@.subrange(lo as int, hi as int)) is Some,
        r matches Some((sp, gs)) ==> record(b@.subrange(lo as int, hi as int)) == Some((sp@, gs@)),
{
    let ghost l = b@.subrange(lo as int, hi as int);
    let ps = split_bounds(b, lo, hi, 32);
    if ps.len() != 2 {
        return None;
    }
    let (a0, z0) = ps[0];
    let (a1, z1) = ps[1];
    let ghost head = split(l, 32)[0];
    assert(split(l, 32)[1] == b@.subrange(a1 as int, z1 as int));
    let mut springs: Vec<u8> = Vec::new();
    let mut k = a0;
    while k < z0
        invariant
            a0 <= k <= z0 <= b@.len(),
            head == b@.subrange(a0 as int, z0 as int),
            l == b@.subrange(lo as int, hi as int),
            split(l, 32).len() == 2,
            head == split(l, 32)[0],
            split(l, 32)[1] == b@.subrange(a1 as int, z1 as int),
            springs@ == b@.subrange(a0 as int, k as int),
            forall|t: int| 0 <= t < springs@.len() ==> {
                let c = #[trigger] springs@[t];
                c == 46 || c == 35 || c == 63
            },
        decreases z0 - k,
    {
        let c = b[k];
        if !(c == 46 || c == 35 || c == 63) {
            assert(head[k - a0] == c);
            assert(!(forall|t: int| 0 <= t < head.len() ==> {
                let c = #[trigger] head[t];
                c == 46 || c == 35 || c == 63
            }));
            return None;
        }
        assert(b@.subrange(a0 as int, k + 1) =~= b@.subrange(a0 as int, k as int).push(c));
        springs.push(c);
        k = k + 1;
    }
    assert(springs@ == head) by {
        assert(b@.subrange(a0 as int, k as int) == head);
    }
    let fs = split_bounds(b, a1, z1, 44);
    let ghost fsv = split(b@.subrange(a1 as int, z1 as int), 44);
    let mut groups: Vec<u64> = Vec::new();
    let mut j: usize = 0;
    while j < fs.len()
        invariant
            j <= fs@.len() == fsv.len(),
            a1 <= z1 <= b@.len(),
            l == b@.subrange(lo as int, hi as int),
            split(l, 32).len() == 2,
            head == split(l, 32)[0],
            springs@ == head,
            forall|t: int| 0 <= t < springs@.len() ==> {
                let c = #[trigger] springs@[t];
                c == 46 || c == 35 || c == 63
            },
            split(l, 32)[1] == b@.subrange(a1 as int, z1 as int),
            fsv == split(b@.subrange(a1 as int, z1 as int), 44),
            forall|t: int|
                0 <= t < fs@.len() ==> (#[trigger] fs@[t]).0 <= fs@[t].1 <= b@.len() && b@.subrange(fs@[t].0 as int, fs@[t].1 as int)
                    == fsv[t],
            groups_of(fsv, j as int) == Some(groups@),
        decreases fs@.len() - j,
    {
        let (fa, fz) = fs[j];
        match parse_decimal(b, fa, fz) {
            Some(v) => {
                groups.push(v);
            },
            None => {
                proof {
                    lemma_groups_none(fsv, j as int + 1, fsv.len() as int);
                }
                return None;
            },
        }
        j = j + 1;
    }
    Some((springs, groups))
}

proof fn lemma_groups_none(fs: Seq<Seq<u8>>, k: int, n: int)
    requires
        1 <= k <= n,
        groups_of(fs, k) is None,
    ensures
        groups_of(fs, n) is None,
    decreases n - k,
{
    if k < n {
        lemma_groups_none(fs, k, n - 1);
    }
}

proof fn lemma_arrangements_none(ls: Seq<Seq<u8>>, k: int, n: int, unfolded: bool)
    requires
        1 <= k <= n,
        arrangements(ls, k, unfolded) is None,
    ensures
        arrangements(ls, n, unfolded) is None,
    decreases n - k,
{
    if k < n {
        lemma_arrangements_none(ls, k, n - 1, unfolded);
    }
}

fn total(input: &String, unfolded: bool) -> (r: Result<u64, InputError>)
    ensures
        arrangements(lines(bytes_of(input@)), lines(bytes_of(input@)).len() as int, unfolded) is None <==> r
            == Err::<u64, InputError>(InputError::Malformed),
        arrangements(lines(bytes_of(input@)), lines(bytes_of(input@)).len() as int, unfolded) matches Some(v) ==> if records_fit(
            lines(bytes_of(input@)),
            lines(bytes_of(input@)).len() as int,
            unfolded,
        ) && v <= u64::MAX {
            r == Ok::<u64, InputError>(v as u64)
        } else {
            r == Err::<u64, InputError>(InputError::TooLarge)
        },
{
    let b = input.as_str().as_bytes();
    let ls = line_bounds(b);
    let ghost all = lines(b@);
    let mut sum: u128 = 0;
    let mut unfit = false;
    let mut big = false;
    let mut k: usize = 0;
    while k < ls.len()
        invariant
            k <= ls@.len() == all.len(),
            all == lines(b@),
            b@ == bytes_of(input@),
            forall|j: int|
                0 <= j < ls@.len() ==> (#[trigger] ls@[j]).0 <= ls@[j].1 <= b@.len() && b@.subrange(ls@[j].0 as int, ls@[j].1 as int)
                    == all[j],
            arrangements(all, k as int, unfolded) is Some,
            records_fit(all, k as int, unfolded) == !unfit,
            !unfit && !big ==> arrangements(all, k as int, unfolded) == Some(sum as int),
            !unfit && big ==> arrangements(all, k as int, unfolded)->0 > u64::MAX,
        decreases ls@.len() - k,
    {
        let (lo, hi) = ls[k];
        assert(b@.subrange(lo as int, hi as int) == all[k as int]);
        match parse_record(b, lo, hi) {
            None => {
                proof {
                    lemma_arrangements_none(all, k as int + 1, all.len() as int, unfolded);
                }
                return Err(InputError::Malformed);
            },
            Some((sp, gs)) => {
                let count = if unfolded {
                    let mut s2: Vec<u8> = Vec::new();
                    let mut g2: Vec<u64> = Vec::new();
                    let mut c: usize = 0;
                    while c < 5
                        invariant
                            c <= 5,
                            c == 0 ==> s2@ == Seq::<u8>::empty() && g2@ == Seq::<u64>::empty(),
                            c == 1 ==> s2@ == sp@ && g2@ == gs@,
                            c == 2 ==> s2@ == sp@ + seq![63u8] + sp@ && g2@ == gs@ + gs@,
                            c == 3 ==> s2@ == sp@ + seq![63u8] + sp@ + seq![63u8] + sp@ && g2@ == gs@ + gs@ + gs@,
                            c == 4 ==> s2@ == sp@ + seq![63u8] + sp@ + seq![63u8] + sp@ + seq![63u8] + sp@ && g2@ == gs@
                                + gs@ + gs@ + gs@,
                            c == 5 ==> s2@ == unfold(sp@, gs@).0 && g2@ == unfold(sp@, gs@).1,
                        decreases 5 - c,
                    {
                        let ghost before = s2@;
                        if c > 0 {
                            s2.push(63);
                            assert(s2@ =~= before + seq![63u8]);
                        } else {
                            assert(before + sp@ =~= sp@);
                            assert(Seq::<u64>::empty() + gs@ =~= gs@);
                        }
                        append_bytes(&mut s2, &sp);
                        append_groups(&mut g2, &gs);
                        c = c + 1;
                    }
                    count_arrangements(&s2, &g2)
                } else {
                    count_arrangements(&sp, &gs)
                };
                match count {
                    Some(v) => {
                        if !big {
                            match sum.checked_add(v) {
                                Some(t) => {
                                    sum = t;
                                },
                                None => {
                                    big = true;
                                },
                            }
                        }
                    },
                    None => {
                        unfit = true;
                    },
                }
            },
        }
        k = k + 1;
    }
    if unfit || big || sum > 0xffff_ffff_ffff_ffff {
        Err(InputError::TooLarge)
    } else {
        Ok(sum as u64)
    }
}

/// Sum over the records of `input` of the number of arrangements of their springs.
pub fn run_part_1(input: String) -> (r: Result<u64, InputError>)
    ensures
        arrangements(lines(bytes_of(input@)), lines(bytes_of(input@)).len() as int, false) is None <==> r
            == Err::<u64, InputError>(InputError::Malformed),
        arrangements(lines(bytes_of(input@)), lines(bytes_of(input@)).len() as int, false) matches Some(v) ==> if records_fit(
            lines(bytes_of(input@)),
            lines(bytes_of(input@)).len() as int,
            false,
        ) && v <= u64::MAX {
            r == Ok::<u64, InputError>(v as u64)
        } else {
            r == Err::<u64, InputError>(InputError::TooLarge)
        },
{
    total(&input, false)
}

/// The same sum once each record is unfolded five times.
pub fn run_part_2(input: String) -> (r: Result<u64, InputError>)
    ensures
        arrangements(lines(bytes_of(input@)), lines(bytes_of(input@)).len() as int, true) is None <==> r
            == Err::<u64, InputError>(InputError::Malformed),
        arrangements(lines(bytes_of(input@)), lines(bytes_of(input@)).len() as int, true) matches Some(v) ==> if records_fit(
            lines(bytes_of(input@)),
            lines(bytes_of(input@)).len() as int,
            true,
        ) && v <= u64::MAX {
            r == Ok::<u64, InputError>(v as u64)
        } else {
            r == Err::<u64, InputError>(InputError::TooLarge)
        },
{
    total(&input, true)
}

} // verus!
