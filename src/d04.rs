use vstd::prelude::*;
use crate::text::after_colon;
use crate::text::bytes_of;
use crate::text::line_bounds;
use crate::text::lines;
use crate::text::numbers;
use crate::text::parse_numbers;
use crate::text::split;
use crate::text::split_bounds;
use crate::text::InputError;

verus! {

/// The winning numbers and the numbers held on a card line.
pub open spec fn card(l: Seq<u8>) -> Option<(Seq<u64>, Seq<u64>)> {
    match after_colon(l) {
        Some(x) => {
            let ps = split(x, 124);
            if ps.len() == 2 {
                match (numbers(ps[0]), numbers(ps[1])) {
                    (Some(w), Some(y)) => Some((w, y)),
                    _ => None,
                }
            } else {
                None
            }
        },
        None => None,
    }
}

/// How many of the numbers held in `y` are among the winning numbers `w`.
pub open spec fn hits(w: Seq<u64>, y: Seq<u64>) -> int
    decreases y.len(),
{
    if y.len() == 0 {
        0
    } else {
        hits(w, y.drop_last()) + if w.contains(y.last()) {
            1int
        } else {
            0int
        }
    }
}

/// The number of matches of each card.
pub open spec fn card_hits(ls: Seq<Seq<u8>>) -> Option<Seq<int>>
    decreases ls.len(),
{
    if ls.len() == 0 {
        Some(seq![])
    } else {
        match (card_hits(ls.drop_last()), card(ls.last())) {
            (Some(hs), Some((w, y))) => Some(hs.push(hits(w, y))),
            _ => None,
        }
    }
}

pub open spec fn pow2(n: nat) -> int
    decreases n,
{
    if n == 0 {
        1
    } else {
        2 * pow2((n - 1) as nat)
    }
}

/// Points of a card with `m` matches: 1 for the first, doubled for each further one.
pub open spec fn points(m: int) -> int {
    if m <= 0 {
        0
    } else {
        pow2((m - 1) as nat)
    }
}

pub open spec fn points_sum(hs: Seq<int>) -> int
    decreases hs.len(),
{
    if hs.len() == 0 {
        0
    } else {
        points_sum(hs.drop_last()) + points(hs.last())
    }
}

/// Copies of card `k` won by the cards before `j`: card `i` wins one copy of each of the
/// `hs[i]` cards after it, for each of its own copies.
pub open spec fn won(hs: Seq<int>, k: int, j: int) -> int
    decreases j, 0int,
{
    if j <= 0 {
        0
    } else {
        won(hs, k, j - 1) + if j - 1 < k <= j - 1 + hs[j - 1] {
            copies(hs, j - 1)
        } else {
            0
        }
    }
}

/// Number of copies of card `k`, the card itself included.
pub open spec fn copies(hs: Seq<int>, k: int) -> int
    decreases k, 1int,
{
    1 + won(hs, k, k)
}

pub open spec fn copies_total(hs: Seq<int>, n: int) -> int
    decreases n,
{
    if n <= 0 {
        0
    } else {
        copies_total(hs, n - 1) + copies(hs, n - 1)
    }
}

fn count_hits(w: &Vec<u64>, y: &Vec<u64>) -> (r: u64)
    ensures
        r == hits(w@, y@),
        r <= y@.len(),
{
    let mut n: u64 = 0;
    let mut i: usize = 0;
    while i < y.len()
        invariant
            i <= y@.len(),
            n == hits(w@, y@.take(i as int)),
            n <= i,
        decreases y@.len() - i,
    {
        assert(y@.take(i + 1).drop_last() =~= y@.take(i as int));
        let mut found = false;
        let mut j: usize = 0;
        while j < w.len()
            invariant
                j <= w@.len(),
                i < y@.len(),
                found == (exists|t: int| 0 <= t < j && w@[t] == y@[i as int]),
            decreases w@.len() - j,
        {
            if w[j] == y[i] {
                found = true;
            }
            j = j + 1;
        }
        if found {
            n = n + 1;
        }
        i = i + 1;
    }
    assert(y@.take(i as int) =~= y@);
    n
}

fn parse_card(b: &[u8], lo: usize, hi: usize) -> (r: Option<u64>)
    requires
        lo <= hi <= b@.len(),
    ensures
        r is Some <==> card(b@.subrange(lo as int, hi as int)) is Some,
        r matches Some(m) ==> {
            let c = card(b@.subrange(lo as int, hi as int))->0;
            m == hits(c.0, c.1)
        },
{
    let ps = split_bounds(b, lo, hi, 58);
    if ps.len() != 2 {
        return None;
    }
    let (a, z) = ps[1];
    let halves = split_bounds(b, a, z, 124);
    if halves.len() != 2 {
        return None;
    }
    let (a0, z0) = halves[0];
    let (a1, z1) = halves[1];
    let w = match parse_numbers(b, a0, z0) {
        Some(v) => v,
        None => {
            return None;
        },
    };
    let y = match parse_numbers(b, a1, z1) {
        Some(v) => v,
        None => {
            return None;
        },
    };
    Some(count_hits(&w, &y))
}

fn hits_of(input: &String) -> (r: Option<Vec<u64>>)
    ensures
        r is Some <==> card_hits(lines(bytes_of(input@))) is Some,
        r matches Some(v) ==> v@.len() == card_hits(lines(bytes_of(input@)))->0.len() && forall|i: int|
            0 <= i < v@.len() ==> v@[i] == card_hits(lines(bytes_of(input@)))->0[i],
{
    let b = input.as_str().as_bytes();
    let ls = line_bounds(b);
    let ghost all = lines(b@);
    let mut out: Vec<u64> = Vec::new();
    let mut k: usize = 0;
    while k < ls.len()
        invariant
            k <= ls@.len() == all.len(),
            all == lines(b@),
            b@ == bytes_of(input@),
            forall|j: int|
                0 <= j < ls@.len() ==> (#[trigger] ls@[j]).0 <= ls@[j].1 <= b@.len() && b@.subrange(ls@[j].0 as int, ls@[j].1 as int)
                    == all[j],
            card_hits(all.take(k as int)) is Some,
            out@.len() == k,
            forall|i: int| 0 <= i < k ==> out@[i] == card_hits(all.take(k as int))->0[i],
            card_hits(all.take(k as int))->0.len() == k,
        decreases ls@.len() - k,
    {
        let (lo, hi) = ls[k];
        assert(all.take(k + 1).drop_last() =~= all.take(k as int));
        assert(b@.subrange(lo as int, hi as int) == all[k as int]);
        match parse_card(b, lo, hi) {
            None => {
                proof {
                    lemma_hits_none(all, k as int);
                }
                return None;
            },
            Some(m) => {
                out.push(m);
            },
        }
        k = k + 1;
    }
    assert(all.take(k as int) =~= all);
    Some(out)
}

proof fn lemma_hits_none(ls: Seq<Seq<u8>>, k: int)
    requires
        0 <= k < ls.len(),
        card(ls[k]) is None,
    ensures
        card_hits(ls) is None,
    decreases ls.len(),
{
    if k < ls.len() - 1 {
        lemma_hits_none(ls.drop_last(), k);
    }
}

proof fn lemma_pow2_mono(a: nat, b: nat)
    requires
        a <= b,
    ensures
        1 <= pow2(a) <= pow2(b),
    decreases b,
{
    if a < b {
        lemma_pow2_mono(a, (b - 1) as nat);
    } else if a > 0 {
        lemma_pow2_mono((a - 1) as nat, (a - 1) as nat);
    }
}

proof fn lemma_points_prefix(hs: Seq<int>, k: int)
    requires
        0 <= k <= hs.len(),
    ensures
        0 <= points_sum(hs.take(k)) <= points_sum(hs),
    decreases hs.len(),
{
    if k == hs.len() {
        assert(hs.take(k) =~= hs);
        if hs.len() > 0 {
            lemma_points_prefix(hs.drop_last(), k - 1);
            assert(hs.drop_last().take(k - 1) =~= hs.drop_last());
            if hs.last() > 0 {
                lemma_pow2_mono(0, (hs.last() - 1) as nat);
            }
        }
    } else {
        lemma_points_prefix(hs.drop_last(), k);
        assert(hs.drop_last().take(k) =~= hs.take(k));
        if hs.last() > 0 {
            lemma_pow2_mono(0, (hs.last() - 1) as nat);
        }
    }
}

proof fn lemma_won_nonneg(h: Seq<int>, k: int, j: int)
    ensures
        won(h, k, j) >= 0,
        j >= 1 ==> copies(h, j - 1) >= 1,
    decreases j,
{
    if j > 0 {
        lemma_won_nonneg(h, k, j - 1);
        lemma_won_nonneg(h, j - 1, j - 1);
        assert(copies(h, j - 1) == 1 + won(h, j - 1, j - 1));
    }
}

proof fn lemma_won_mono(h: Seq<int>, k: int, a: int, b: int)
    requires
        a <= b,
    ensures
        won(h, k, a) <= won(h, k, b),
    decreases b - a,
{
    if a < b {
        lemma_won_mono(h, k, a, b - 1);
        lemma_won_nonneg(h, b - 1, b);
    }
}

proof fn lemma_total_mono(h: Seq<int>, a: int, b: int)
    requires
        0 <= a <= b,
    ensures
        copies_total(h, a) <= copies_total(h, b),
    decreases b - a,
{
    if a < b {
        lemma_total_mono(h, a, b - 1);
        lemma_won_nonneg(h, b - 1, b - 1);
    }
}

proof fn lemma_total_ge(h: Seq<int>, u: int, n: int)
    requires
        0 <= u < n,
    ensures
        copies_total(h, n) >= copies(h, u),
{
    lemma_total_mono(h, u, n - 1);
    lemma_total_mono(h, 0, u);
    lemma_total_mono(h, u + 1, n);
}

/// Total points of the scratchcards in `input`.
pub fn run_part_1(input: String) -> (r: Result<u64, InputError>)
    ensures
        card_hits(lines(bytes_of(input@))) is None <==> r == Err::<u64, InputError>(InputError::Malformed),
        card_hits(lines(bytes_of(input@))) matches Some(hs) ==> if points_sum(hs) <= u64::MAX {
            r == Ok::<u64, InputError>(points_sum(hs) as u64)
        } else {
            r == Err::<u64, InputError>(InputError::TooLarge)
        },
{
    let hs = match hits_of(&input) {
        Some(v) => v,
        None => {
            return Err(InputError::Malformed);
        },
    };
    let ghost spec_hs = card_hits(lines(bytes_of(input@)))->0;
    let mut total: u64 = 0;
    let mut k: usize = 0;
    while k < hs.len()
        invariant
            card_hits(lines(bytes_of(input@))) is Some,
            k <= hs@.len() == spec_hs.len(),
            forall|i: int| 0 <= i < hs@.len() ==> hs@[i] == spec_hs[i],
            total == points_sum(spec_hs.take(k as int)),
            spec_hs == card_hits(lines(bytes_of(input@)))->0,
        decreases hs@.len() - k,
    {
        assert(spec_hs.take(k + 1).drop_last() =~= spec_hs.take(k as int));
        let m = hs[k];
        let mut p: u64 = 0;
        if m > 0 {
            p = 1;
            let mut i: u64 = 1;
            while i < m
                invariant
                    card_hits(lines(bytes_of(input@))) is Some,
                card_hits(lines(bytes_of(input@))) is Some,
            card_hits(lines(bytes_of(input@))) is Some,
                    1 <= i <= m,
                    p == pow2((i - 1) as nat),
                    k < spec_hs.len(),
                    m == spec_hs[k as int],
                    total == points_sum(spec_hs.take(k as int)),
                    spec_hs == card_hits(lines(bytes_of(input@)))->0,
                decreases m - i,
            {
                p = match p.checked_mul(2) {
                    Some(v) => v,
                    None => {
                        proof {
                            assert(pow2(i as nat) == 2 * pow2((i - 1) as nat));
                            assert(spec_hs.take(k + 1).drop_last() =~= spec_hs.take(k as int));
                            lemma_pow2_mono(i as nat, (m - 1) as nat);
                            assert(points(spec_hs[k as int]) > u64::MAX);
                            lemma_points_prefix(spec_hs, k + 1);
                            lemma_points_prefix(spec_hs, k as int);
                        }
                        return Err(InputError::TooLarge);
                    },
                };
                i = i + 1;
            }
        }
        assert(points(spec_hs[k as int]) == p);
        total = match total.checked_add(p) {
            Some(v) => v,
            None => {
                proof {
                    lemma_points_prefix(spec_hs, k + 1);
                }
                return Err(InputError::TooLarge);
            },
        };
        k = k + 1;
    }
    assert(spec_hs.take(k as int) =~= spec_hs);
    Ok(total)
}

/// Total number of scratchcards held once every card has won its copies.
pub fn run_part_2(input: String) -> (r: Result<u64, InputError>)
    ensures
        card_hits(lines(bytes_of(input@))) is None <==> r == Err::<u64, InputError>(InputError::Malformed),
        card_hits(lines(bytes_of(input@))) matches Some(h) ==> if copies_total(h, h.len() as int) <= u64::MAX {
            r == Ok::<u64, InputError>(copies_total(h, h.len() as int) as u64)
        } else {
            r == Err::<u64, InputError>(InputError::TooLarge)
        },
{
    let hs = match hits_of(&input) {
        Some(v) => v,
        None => {
            return Err(InputError::Malformed);
        },
    };
    let ghost h = card_hits(lines(bytes_of(input@)))->0;
    let n = hs.len();
    let mut held: Vec<u64> = Vec::new();
    let mut i: usize = 0;
    while i < n
        invariant
            card_hits(lines(bytes_of(input@))) is Some,
            i <= n == hs@.len(),
            held@.len() == i,
            forall|t: int| 0 <= t < i ==> held@[t] == 1,
        decreases n - i,
    {
        held.push(1);
        i = i + 1;
    }
    let mut total: u64 = 0;
    let mut k: usize = 0;
    while k < n
        invariant
            card_hits(lines(bytes_of(input@))) is Some,
            k <= n == hs@.len() == h.len() == held@.len(),
            forall|t: int| 0 <= t < n ==> hs@[t] == h[t],
            forall|t: int| k <= t < n ==> held@[t] == 1 + won(h, t, k as int),
            total == copies_total(h, k as int),
            h == card_hits(lines(bytes_of(input@)))->0,
        decreases n - k,
    {
        let c = held[k];
        assert(c == copies(h, k as int));
        let m = hs[k];
        let mut u: usize = k + 1;
        while u < n && (u - k) as u64 <= m
            invariant
                card_hits(lines(bytes_of(input@))) is Some,
            card_hits(lines(bytes_of(input@))) is Some,
                k < u <= n == held@.len() == h.len(),
                c == copies(h, k as int),
                m == h[k as int],
                forall|t: int| k < t < u ==> held@[t] == 1 + won(h, t, k + 1),
                forall|t: int| u <= t < n ==> held@[t] == 1 + won(h, t, k as int),
                u - k <= m + 1,
                h == card_hits(lines(bytes_of(input@)))->0,
                total == copies_total(h, k as int),
            decreases n - u,
        {
            assert(won(h, u as int, k + 1) == won(h, u as int, k as int) + c);
            held.set(
                u,
                match held[u].checked_add(c) {
                    Some(v) => v,
                    None => {
                        proof {
                            lemma_won_mono(h, u as int, k + 1, u as int);
                            lemma_total_ge(h, u as int, n as int);
                        }
                        return Err(InputError::TooLarge);
                    },
                },
            );
            u = u + 1;
        }
        proof {
            assert forall|t: int| k + 1 <= t < n implies held@[t] == 1 + won(h, t, k + 1) by {
                if t >= u {
                    assert(won(h, t, k + 1) == won(h, t, k as int));
                }
            }
        }
        total = match total.checked_add(c) {
            Some(v) => v,
            None => {
                proof {
                    lemma_total_mono(h, k + 1, n as int);
                }
                return Err(InputError::TooLarge);
            },
        };
        k = k + 1;
    }
    Ok(total)
}

} // verus!
