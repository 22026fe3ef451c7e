use vstd::prelude::*;
use crate::text::bytes_of;
use crate::text::split;
use crate::text::split_bounds;
use crate::text::trim;
use crate::text::trim_bounds;
use crate::text::number;
use crate::text::parse_decimal;
use crate::text::InputError;

verus! {

/// The HASH of `s`: for each byte, add it, multiply by 17 and keep the remainder by 256.
pub open spec fn hash(s: Seq<u8>) -> int
    decreases s.len(),
{
    if s.len() == 0 {
        0
    } else {
        ((hash(s.drop_last()) + s.last()) * 17) % 256
    }
}

/// Sum of the HASH of each step.
pub open spec fn hash_sum(steps: Seq<Seq<u8>>) -> int
    decreases steps.len(),
{
    if steps.len() == 0 {
        0
    } else {
        hash_sum(steps.drop_last()) + hash(steps.last())
    }
}

/// The comma-separated steps of the trimmed text `b`.
pub open spec fn steps(b: Seq<u8>) -> Seq<Seq<u8>> {
    split(trim(b), 44)
}

fn hash_of(b: &[u8], lo: usize, hi: usize) -> (r: u64)
    requires
        lo <= hi <= b@.len(),
    ensures
        r == hash(b@.subrange(lo as int, hi as int)),
        r < 256,
{
    let mut h: u64 = 0;
    let mut i = lo;
    while i < hi
        invariant
            lo <= i <= hi <= b@.len(),
            h == hash(b@.subrange(lo as int, i as int)),
            h < 256,
        decreases hi - i,
    {
        assert(b@.subrange(lo as int, i + 1).drop_last() =~= b@.subrange(lo as int, i as int));
        h = ((h + b[i] as u64) * 17) % 256;
        i = i + 1;
    }
    h
}

/// Sum of the HASH of each comma-separated step of `input`.
pub fn run_part_1(input: String) -> (r: Result<u64, InputError>)
    ensures
        hash_sum(steps(bytes_of(input@))) <= u64::MAX ==> r == Ok::<u64, InputError>(
            hash_sum(steps(bytes_of(input@))) as u64,
        ),
        hash_sum(steps(bytes_of(input@))) > u64::MAX ==> r == Err::<u64, InputError>(InputError::TooLarge),
{
    let b = input.as_str().as_bytes();
    let (s, e) = trim_bounds(b);
    let parts = split_bounds(b, s, e, 44);
    let ghost all = steps(b@);
    let mut total: u128 = 0;
    let mut k: usize = 0;
    while k < parts.len()
        invariant
            k <= parts@.len() == all.len(),
            all == split(b@.subrange(s as int, e as int), 44),
            forall|j: int|
                0 <= j < parts@.len() ==> (#[trigger] parts@[j]).0 <= parts@[j].1 <= e && s <= parts@[j].0 && b@.subrange(
                    parts@[j].0 as int,
                    parts@[j].1 as int,
                ) == all[j],
            e <= b@.len(),
            b@ == bytes_of(input@),
            total == hash_sum(all.take(k as int)),
            total <= 255 * k,
        decreases parts@.len() - k,
    {
        let (lo, hi) = parts[k];
        assert(all.take(k + 1).drop_last() =~= all.take(k as int));
        let h = hash_of(b, lo, hi);
        total = total + h as u128;
        k = k + 1;
    }
    assert(all.take(k as int) =~= all);
    if total > 0xffff_ffff_ffff_ffff {
        Err(InputError::TooLarge)
    } else {
        Ok(total as u64)
    }
}


/// A step of the initialization sequence.
pub enum Op {
    /// `label=focus`: put a lens of this focal length in the label's box.
    Put(Seq<u8>, int),
    /// `label-`: take the lens with this label out of its box.
    Take(Seq<u8>),
}

pub open spec fn op_of(s: Seq<u8>) -> Option<Op> {
    let e = split(s, 61);
    if e.len() == 2 {
        match number(e[1]) {
            Some(f) => Some(Op::Put(e[0], f as int)),
            None => None,
        }
    } else {
        let d = split(s, 45);
        if e.len() == 1 && d.len() == 2 && d[1].len() == 0 {
            Some(Op::Take(d[0]))
        } else {
            None
        }
    }
}

/// Position of the lens labelled `l` among the first `n` lenses, or -1.
pub open spec fn find(ls: Seq<(Seq<u8>, int)>, l: Seq<u8>, n: int) -> int
    decreases n,
{
    if n <= 0 {
        -1
    } else if ls[n - 1].0 == l {
        n - 1
    } else {
        find(ls, l, n - 1)
    }
}

/// The lenses, in the order they were put in, after one more step.
pub open spec fn apply(ls: Seq<(Seq<u8>, int)>, op: Op) -> Seq<(Seq<u8>, int)> {
    match op {
        Op::Put(l, f) => {
            let i = find(ls, l, ls.len() as int);
            if i >= 0 {
                ls.update(i, (l, f))
            } else {
                ls.push((l, f))
            }
        },
        Op::Take(l) => {
            let i = find(ls, l, ls.len() as int);
            if i >= 0 {
                ls.remove(i)
            } else {
                ls
            }
        },
    }
}

/// The lenses after the first `n` steps; `None` when one of them is malformed.
pub open spec fn arrange(steps: Seq<Seq<u8>>, n: int) -> Option<Seq<(Seq<u8>, int)>>
    decreases n,
{
    if n <= 0 {
        Some(seq![])
    } else {
        match (arrange(steps, n - 1), op_of(steps[n - 1])) {
            (Some(ls), Some(op)) => Some(apply(ls, op)),
            _ => None,
        }
    }
}

/// Slot of lens `i` in its box: how many lenses put in earlier share its box.
pub open spec fn slot(ls: Seq<(Seq<u8>, int)>, i: int, j: int) -> int
    decreases j,
{
    if j <= 0 {
        0
    } else {
        slot(ls, i, j - 1) + if hash(ls[j - 1].0) == hash(ls[i].0) {
            1int
        } else {
            0int
        }
    }
}

/// Focusing power of the first `n` lenses: box number plus one, times slot plus one,
/// times focal length, summed.
pub open spec fn power(ls: Seq<(Seq<u8>, int)>, n: int) -> int
    decreases n,
{
    if n <= 0 {
        0
    } else {
        power(ls, n - 1) + (hash(ls[n - 1].0) + 1) * (slot(ls, n - 1, n - 1) + 1) * ls[n - 1].1
    }
}

fn same_bytes(b: &[u8], a0: usize, a1: usize, c0: usize, c1: usize) -> (r: bool)
    requires
        a0 <= a1 <= b@.len(),
        c0 <= c1 <= b@.len(),
    ensures
        r == (b@.subrange(a0 as int, a1 as int) == b@.subrange(c0 as int, c1 as int)),
{
    if a1 - a0 != c1 - c0 {
        assert(b@.subrange(a0 as int, a1 as int).len() != b@.subrange(c0 as int, c1 as int).len());
        return false;
    }
    let mut k: usize = 0;
    while k < a1 - a0
        invariant
            a0 <= a1 <= b@.len(),
            c0 <= c1 <= b@.len(),
            a1 - a0 == c1 - c0,
            k <= a1 - a0,
            forall|j: int| 0 <= j < k ==> #[trigger] b@[a0 + j] == b@[c0 + j],
        decreases a1 - a0 - k,
    {
        if b[a0 + k] != b[c0 + k] {
            assert(b@.subrange(a0 as int, a1 as int)[k as int] != b@.subrange(c0 as int, c1 as int)[k as int]);
            return false;
        }
        k = k + 1;
    }
    assert forall|j: int| 0 <= j < a1 - a0 implies b@.subrange(a0 as int, a1 as int)[j] == b@.subrange(
        c0 as int,
        c1 as int,
    )[j] by {
        assert(b@[a0 + j] == b@[c0 + j]);
    }
    assert(b@.subrange(a0 as int, a1 as int) =~= b@.subrange(c0 as int, c1 as int));
    true
}

/// Reads a step: the bounds of its label and, for `=`, its focal length.
fn parse_op(b: &[u8], lo: usize, hi: usize) -> (r: Option<(usize, usize, Option<u64>)>)
    requires
        lo <= hi <= b@.len(),
    ensures
        r is Some <==> op_of(b@.subrange(lo as int, hi as int)) is Some,
        r matches Some((a, z, f)) ==> a <= z <= b@.len() && match op_of(b@.subrange(lo as int, hi as int))->0 {
            Op::Put(l, g) => f == Some(g as u64) && b@.subrange(a as int, z as int) == l,
            Op::Take(l) => f is None && b@.subrange(a as int, z as int) == l,
        },
{
    let e = split_bounds(b, lo, hi, 61);
    if e.len() == 2 {
        let (a, z) = e[0];
        let (fa, fz) = e[1];
        match parse_decimal(b, fa, fz) {
            Some(f) => Some((a, z, Some(f))),
            None => None,
        }
    } else {
        let d = split_bounds(b, lo, hi, 45);
        if e.len() == 1 && d.len() == 2 {
            let (a, z) = d[0];
            let (da, dz) = d[1];
            if da == dz {
                Some((a, z, None))
            } else {
                None
            }
        } else {
            None
        }
    }
}


/// Position of the lens labelled `b[a..z]`, searching from the last one.
fn find_label(b: &[u8], lenses: &Vec<(usize, usize, u64)>, a: usize, z: usize, Ghost(st): Ghost<Seq<(Seq<u8>, int)>>) -> (r:
    Option<usize>)
    requires
        a <= z <= b@.len(),
        lenses@.len() == st.len(),
        forall|j: int|
            0 <= j < lenses@.len() ==> (#[trigger] lenses@[j]).0 <= lenses@[j].1 <= b@.len() && b@.subrange(
                lenses@[j].0 as int,
                lenses@[j].1 as int,
            ) == st[j].0 && lenses@[j].2 == st[j].1,
    ensures
        r matches Some(i) ==> i as int == find(st, b@.subrange(a as int, z as int), st.len() as int) && i < st.len(),
        r is None ==> find(st, b@.subrange(a as int, z as int), st.len() as int) == -1,
{
    let mut i = lenses.len();
    while i > 0
        invariant
            i <= lenses@.len() == st.len(),
            a <= z <= b@.len(),
            forall|j: int|
                0 <= j < lenses@.len() ==> (#[trigger] lenses@[j]).0 <= lenses@[j].1 <= b@.len() && b@.subrange(
                    lenses@[j].0 as int,
                    lenses@[j].1 as int,
                ) == st[j].0 && lenses@[j].2 == st[j].1,
            find(st, b@.subrange(a as int, z as int), st.len() as int) == find(st, b@.subrange(a as int, z as int), i as int),
        decreases i,
    {
        let (la, lz, _) = lenses[i - 1];
        if same_bytes(b, la, lz, a, z) {
            return Some(i - 1);
        }
        i = i - 1;
    }
    None
}

/// Focusing power of the lenses once every step of `input` has run.
pub fn run_part_2(input: String) -> (r: Result<u64, InputError>)
    ensures
        arrange(steps(bytes_of(input@)), steps(bytes_of(input@)).len() as int) is None <==> r == Err::<u64, InputError>(
            InputError::Malformed,
        ),
        arrange(steps(bytes_of(input@)), steps(bytes_of(input@)).len() as int) matches Some(ls) ==> {
            let v = power(ls, ls.len() as int);
            if v <= u64::MAX {
                r == Ok::<u64, InputError>(v as u64)
            } else {
                r == Err::<u64, InputError>(InputError::TooLarge)
            }
        },
{
    let b = input.as_str().as_bytes();
    let (s, e) = trim_bounds(b);
    let parts = split_bounds(b, s, e, 44);
    let ghost all = steps(b@);
    let mut lenses: Vec<(usize, usize, u64)> = Vec::new();
    let ghost mut st: Seq<(Seq<u8>, int)> = seq![];
    let mut k: usize = 0;
    while k < parts.len()
        invariant
            k <= parts@.len() == all.len(),
            all == split(b@.subrange(s as int, e as int), 44),
            all == steps(b@),
            b@ == bytes_of(input@),
            forall|j: int|
                0 <= j < parts@.len() ==> (#[trigger] parts@[j]).0 <= parts@[j].1 <= e && s <= parts@[j].0 && b@.subrange(
                    parts@[j].0 as int,
                    parts@[j].1 as int,
                ) == all[j],
            e <= b@.len(),
            arrange(all, k as int) == Some(st),
            lenses@.len() == st.len(),
            forall|j: int|
                0 <= j < lenses@.len() ==> (#[trigger] lenses@[j]).0 <= lenses@[j].1 <= b@.len() && b@.subrange(
                    lenses@[j].0 as int,
                    lenses@[j].1 as int,
                ) == st[j].0 && lenses@[j].2 == st[j].1,
        decreases parts@.len() - k,
    {
        let (lo, hi) = parts[k];
        match parse_op(b, lo, hi) {
            None => {
                proof {
                    lemma_arrange_none(all, k as int + 1, all.len() as int);
                }
                return Err(InputError::Malformed);
            },
            Some((a, z, f)) => {
                let ghost l = b@.subrange(a as int, z as int);
                let found = find_label(b, &lenses, a, z, Ghost(st));
                match f {
                    Some(f) => {
                        match found {
                            Some(i) => {
                                lenses.set(i, (a, z, f));
                                proof {
                                    st = st.update(i as int, (l, f as int));
                                }
                            },
                            None => {
                                lenses.push((a, z, f));
                                proof {
                                    st = st.push((l, f as int));
                                }
                            },
                        }
                    },
                    None => {
                        match found {
                            Some(i) => {
                                let ghost old_lenses = lenses@;
                                lenses.remove(i);
                                proof {
                                    let old_st = st;
                                    st = st.remove(i as int);
                                    assert forall|j: int| 0 <= j < lenses@.len() implies (#[trigger] lenses@[j]).0
                                        <= lenses@[j].1 <= b@.len() && b@.subrange(
                                        lenses@[j].0 as int,
                                        lenses@[j].1 as int,
                                    ) == st[j].0 && lenses@[j].2 == st[j].1 by {
                                        if j < i {
                                            assert(lenses@[j] == old_lenses[j]);
                                        } else {
                                            assert(lenses@[j] == old_lenses[j + 1]);
                                            assert(st[j] == old_st[j + 1]);
                                        }
                                    }
                                }
                            },
                            None => {},
                        }
                    },
                }
            },
        }
        k = k + 1;
    }
    let n = lenses.len();
    let mut hs: Vec<u64> = Vec::new();
    let mut i: usize = 0;
    while i < n
        invariant
            i <= n == lenses@.len() == st.len(),
            forall|j: int|
                0 <= j < lenses@.len() ==> (#[trigger] lenses@[j]).0 <= lenses@[j].1 <= b@.len() && b@.subrange(
                    lenses@[j].0 as int,
                    lenses@[j].1 as int,
                ) == st[j].0 && lenses@[j].2 == st[j].1,
            hs@.len() == i,
            forall|j: int| 0 <= j < i ==> hs@[j] == hash(st[j].0) && hs@[j] < 256,
        decreases n - i,
    {
        let (a, z, _) = lenses[i];
        hs.push(hash_of(b, a, z));
        i = i + 1;
    }
    let mut total: u128 = 0;
    let mut big = false;
    let mut i: usize = 0;
    while i < n
        invariant
            i <= n == lenses@.len() == st.len() == hs@.len(),
            power(st, i as int) >= 0,
            big ==> power(st, i as int) > u64::MAX,
            forall|j: int|
                0 <= j < lenses@.len() ==> (#[trigger] lenses@[j]).0 <= lenses@[j].1 <= b@.len() && b@.subrange(
                    lenses@[j].0 as int,
                    lenses@[j].1 as int,
                ) == st[j].0 && lenses@[j].2 == st[j].1,
            forall|j: int| 0 <= j < n ==> hs@[j] == hash(st[j].0) && hs@[j] < 256,
            !big ==> total == power(st, i as int),
            arrange(all, all.len() as int) == Some(st),
            all == steps(bytes_of(input@)),
        decreases n - i,
    {
        let mut count: u128 = 0;
        let mut j: usize = 0;
        while j < i
            invariant
                j <= i < n == hs@.len() == st.len(),
                forall|t: int| 0 <= t < n ==> hs@[t] == hash(st[t].0) && hs@[t] < 256,
                count == slot(st, i as int, j as int),
                count <= j,
            decreases i - j,
        {
            if hs[j] == hs[i] {
                count = count + 1;
            }
            j = j + 1;
        }
        let (_, _, f) = lenses[i];
        proof {
            assert((hs@[i as int] + 1) * (count + 1) <= 256 * 0x1_0000_0000_0000_0000) by (nonlinear_arith)
                requires
                    hs@[i as int] < 256,
                    count <= i,
                    i < n,
                    n <= 0xffff_ffff_ffff_ffff,
            ;
        }
        assert(lenses@[i as int].2 == st[i as int].1);
        let ghost exact = (hash(st[i as int].0) + 1) * (slot(st, i as int, i as int) + 1) * st[i as int].1;
        proof {
            assert(exact >= 0) by (nonlinear_arith)
                requires
                    exact == (hash(st[i as int].0) + 1) * (slot(st, i as int, i as int) + 1) * st[i as int].1,
                    hash(st[i as int].0) >= 0,
                    slot(st, i as int, i as int) >= 0,
                    st[i as int].1 >= 0,
            ;
        }
        match ((hs[i] as u128 + 1) * (count + 1)).checked_mul(f as u128) {
            Some(term) => {
                if !big {
                    match total.checked_add(term) {
                        Some(t) => {
                            total = t;
                        },
                        None => {
                            big = true;
                        },
                    }
                }
            },
            None => {
                big = true;
            },
        }
        i = i + 1;
    }
    if big || total > 0xffff_ffff_ffff_ffff {
        Err(InputError::TooLarge)
    } else {
        Ok(total as u64)
    }
}

proof fn lemma_arrange_none(steps: Seq<Seq<u8>>, k: int, n: int)
    requires
        1 <= k <= n,
        arrange(steps, k) is None,
    ensures
        arrange(steps, n) is None,
    decreases n - k,
{
    if k < n {
        lemma_arrange_none(steps, k, n - 1);
    }
}

} // verus!
