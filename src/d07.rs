use vstd::prelude::*;
use crate::text::bytes_of;
use crate::text::line_bounds;
use crate::text::lines;
use crate::text::number;
use crate::text::parse_decimal;
use crate::text::split;
use crate::text::split_bounds;
use crate::text::InputError;

verus! {

/// Strength of a card label; with `jokers`, `J` is the weakest card (1).
pub open spec fn card_value(c: u8, jokers: bool) -> Option<int> {
    if 50 <= c <= 57 {
        Some(c - 48)
    } else if c == 84 {
        Some(10)
    } else if c == 74 {
        Some(if jokers {
            1int
        } else {
            11int
        })
    } else if c == 81 {
        Some(12)
    } else if c == 75 {
        Some(13)
    } else if c == 65 {
        Some(14)
    } else {
        None
    }
}

/// The five card strengths of a hand.
pub open spec fn hand_of(s: Seq<u8>, jokers: bool) -> Option<Seq<int>> {
    if s.len() == 5 && forall|i: int| 0 <= i < 5 ==> (#[trigger] card_value(s[i], jokers)) is Some {
        Some(Seq::new(5, |i: int| card_value(s[i], jokers)->0))
    } else {
        None
    }
}

/// A line `<hand> <bid>`.
pub open spec fn player(l: Seq<u8>, jokers: bool) -> Option<(Seq<int>, int)> {
    let ps = split(l, 32);
    if ps.len() == 2 {
        match (hand_of(ps[0], jokers), number(ps[1])) {
            (Some(h), Some(bid)) => Some((h, bid as int)),
            _ => None,
        }
    } else {
        None
    }
}

pub open spec fn players(ls: Seq<Seq<u8>>, n: int, jokers: bool) -> Option<Seq<(Seq<int>, int)>>
    decreases n,
{
    if n <= 0 {
        Some(seq![])
    } else {
        match (players(ls, n - 1, jokers), player(ls[n - 1], jokers)) {
            (Some(ps), Some(p)) => Some(ps.push(p)),
            _ => None,
        }
    }
}

/// How many of the first `n` cards of `h` have strength `v`.
pub open spec fn count_of(h: Seq<int>, v: int, n: int) -> int
    decreases n,
{
    if n <= 0 {
        0
    } else {
        count_of(h, v, n - 1) + if h[n - 1] == v {
            1int
        } else {
            0int
        }
    }
}

/// How many different strengths other than the joker's the first `n` cards show.
pub open spec fn distinct(h: Seq<int>, n: int) -> int
    decreases n,
{
    if n <= 0 {
        0
    } else {
        distinct(h, n - 1) + if h[n - 1] != 1 && count_of(h, h[n - 1], n - 1) == 0 {
            1int
        } else {
            0int
        }
    }
}

/// The largest number of equal cards, jokers aside, among the first `n` cards.
pub open spec fn most(h: Seq<int>, n: int) -> int
    decreases n,
{
    if n <= 0 {
        0
    } else {
        let c = if h[n - 1] != 1 {
            count_of(h, h[n - 1], 5)
        } else {
            0
        };
        let m = most(h, n - 1);
        if c > m {
            c
        } else {
            m
        }
    }
}

/// Kind of a hand, from high card (0) to five of a kind (6); jokers join the largest
/// group of equal cards.
pub open spec fn kind(h: Seq<int>) -> int {
    let m = distinct(h, 5);
    let c = most(h, 5) + count_of(h, 1, 5);
    if m <= 1 {
        6
    } else if m == 2 {
        if c >= 4 {
            5
        } else {
            4
        }
    } else if m == 3 {
        if c >= 3 {
            3
        } else {
            2
        }
    } else if m == 4 {
        1
    } else {
        0
    }
}

/// `a` comes before `b` by card strengths, from position `k` on.
pub open spec fn lex_less(a: Seq<int>, b: Seq<int>, k: int) -> bool
    decreases 5 - k,
{
    if k >= 5 || k < 0 {
        false
    } else if a[k] != b[k] {
        a[k] < b[k]
    } else {
        lex_less(a, b, k + 1)
    }
}

/// Hand `a` ranks below hand `b`.
pub open spec fn weaker(a: Seq<int>, b: Seq<int>) -> bool {
    kind(a) < kind(b) || (kind(a) == kind(b) && lex_less(a, b, 0))
}

/// Among the first `n` players, how many rank below player `i`: weaker hands, and equal
/// hands listed earlier.
pub open spec fn below(ps: Seq<(Seq<int>, int)>, i: int, n: int) -> int
    decreases n,
{
    if n <= 0 {
        0
    } else {
        below(ps, i, n - 1) + if weaker(ps[n - 1].0, ps[i].0) || (ps[n - 1].0 == ps[i].0 && n - 1 < i) {
            1int
        } else {
            0int
        }
    }
}

/// Total winnings of the first `n` players: each bid times its rank.
pub open spec fn winnings(ps: Seq<(Seq<int>, int)>, n: int) -> int
    decreases n,
{
    if n <= 0 {
        0
    } else {
        winnings(ps, n - 1) + ps[n - 1].1 * (below(ps, n - 1, ps.len() as int) + 1)
    }
}

fn card_exec(c: u8, jokers: bool) -> (r: Option<u64>)
    ensures
        r is Some <==> card_value(c, jokers) is Some,
        r matches Some(v) ==> v == card_value(c, jokers)->0,
{
    if c >= 50 && c <= 57 {
        Some((c - 48) as u64)
    } else if c == 84 {
        Some(10)
    } else if c == 74 {
        Some(
            if jokers {
                1
            } else {
                11
            },
        )
    } else if c == 81 {
        Some(12)
    } else if c == 75 {
        Some(13)
    } else if c == 65 {
        Some(14)
    } else {
        None
    }
}

pub open spec fn values(h: Seq<u64>) -> Seq<int> {
    Seq::new(h.len(), |i: int| h[i] as int)
}

fn parse_player(b: &[u8], lo: usize, hi: usize, jokers: bool) -> (r: Option<(Vec<u64>, u64)>)
    requires
        lo <= hi <= b@.len(),
    ensures
        r is Some <==> player(b@.subrange(lo as int, hi as int), jokers) is Some,
        r matches Some((h, bid)) ==> player(b@.subrange(lo as int, hi as int), jokers) == Some((values(h@), bid as int))
            && h@.len() == 5,
{
    let ghost l = b@.subrange(lo as int, hi as int);
    let ps = split_bounds(b, lo, hi, 32);
    if ps.len() != 2 {
        return None;
    }
    let (a0, z0) = ps[0];
    let (a1, z1) = ps[1];
    let ghost s = b@.subrange(a0 as int, z0 as int);
    assert(split(l, 32)[0] == s);
    assert(split(l, 32)[1] == b@.subrange(a1 as int, z1 as int));
    if z0 - a0 != 5 {
        return None;
    }
    let mut h: Vec<u64> = Vec::new();
    let mut k: usize = 0;
    while k < 5
        invariant
            k <= 5,
            a0 + 5 == z0 <= b@.len(),
            s == b@.subrange(a0 as int, z0 as int),
            l == b@.subrange(lo as int, hi as int),
            split(l, 32).len() == 2,
            split(l, 32)[0] == s,
            a1 <= z1 <= b@.len(),
            split(l, 32)[1] == b@.subrange(a1 as int, z1 as int),
            h@.len() == k,
            forall|i: int| 0 <= i < k ==> (#[trigger] card_value(s[i], jokers)) is Some && h@[i] == card_value(s[i], jokers)->0,
        decreases 5 - k,
    {
        assert(s[k as int] == b@[a0 + k]);
        match card_exec(b[a0 + k], jokers) {
            Some(v) => {
                h.push(v);
            },
            None => {
                assert(card_value(s[k as int], jokers) is None);
                return None;
            },
        }
        k = k + 1;
    }
    assert(values(h@) =~= hand_of(s, jokers)->0);
    match parse_decimal(b, a1, z1) {
        Some(bid) => Some((h, bid)),
        None => None,
    }
}

fn count_exec(h: &Vec<u64>, v: u64) -> (r: u64)
    requires
        h@.len() == 5,
    ensures
        r == count_of(values(h@), v as int, 5),
        r <= 5,
{
    let mut c: u64 = 0;
    let mut i: usize = 0;
    while i < 5
        invariant
            i <= 5 == h@.len(),
            c == count_of(values(h@), v as int, i as int),
            c <= i,
        decreases 5 - i,
    {
        if h[i] == v {
            c = c + 1;
        }
        i = i + 1;
    }
    c
}

fn kind_exec(h: &Vec<u64>) -> (r: u64)
    requires
        h@.len() == 5,
    ensures
        r == kind(values(h@)),
{
    let ghost hv = values(h@);
    let mut m: u64 = 0;
    let mut top: u64 = 0;
    let mut i: usize = 0;
    while i < 5
        invariant
            i <= 5 == h@.len(),
            hv == values(h@),
            m == distinct(hv, i as int),
            m <= i,
            top == most(hv, i as int),
            top <= 5,
        decreases 5 - i,
    {
        let mut seen = false;
        let mut j: usize = 0;
        while j < i
            invariant
                j <= i < 5 == h@.len(),
                hv == values(h@),
                seen == (count_of(hv, hv[i as int], j as int) != 0),
                count_of(hv, hv[i as int], j as int) >= 0,
            decreases i - j,
        {
            if h[j] == h[i] {
                seen = true;
            }
            j = j + 1;
        }
        if h[i] != 1 && !seen {
            m = m + 1;
        }
        if h[i] != 1 {
            let c = count_exec(h, h[i]);
            if c > top {
                top = c;
            }
        }
        i = i + 1;
    }
    let c = top + count_exec(h, 1);
    if m <= 1 {
        6
    } else if m == 2 {
        if c >= 4 {
            5
        } else {
            4
        }
    } else if m == 3 {
        if c >= 3 {
            3
        } else {
            2
        }
    } else if m == 4 {
        1
    } else {
        0
    }
}

fn weaker_exec(a: &Vec<u64>, ka: u64, b: &Vec<u64>, kb: u64) -> (r: bool)
    requires
        a@.len() == 5,
        b@.len() == 5,
        ka == kind(values(a@)),
        kb == kind(values(b@)),
    ensures
        r == weaker(values(a@), values(b@)),
{
    if ka != kb {
        return ka < kb;
    }
    let mut k: usize = 0;
    while k < 5
        invariant
            k <= 5,
            a@.len() == 5,
            b@.len() == 5,
            ka == kb,
            ka == kind(values(a@)),
            kb == kind(values(b@)),
            lex_less(values(a@), values(b@), 0) == lex_less(values(a@), values(b@), k as int),
        decreases 5 - k,
    {
        if a[k] != b[k] {
            return a[k] < b[k];
        }
        k = k + 1;
    }
    false
}

proof fn lemma_players_none(ls: Seq<Seq<u8>>, k: int, n: int, jokers: bool)
    requires
        1 <= k <= n,
        players(ls, k, jokers) is None,
    ensures
        players(ls, n, jokers) is None,
    decreases n - k,
{
    if k < n {
        lemma_players_none(ls, k, n - 1, jokers);
    }
}

fn total_winnings(input: &String, jokers: bool) -> (r: Result<u64, InputError>)
    ensures
        players(lines(bytes_of(input@)), lines(bytes_of(input@)).len() as int, jokers) is None <==> r == Err::<
            u64,
            InputError,
        >(InputError::Malformed),
        players(lines(bytes_of(input@)), lines(bytes_of(input@)).len() as int, jokers) matches Some(ps) ==> {
            let v = winnings(ps, ps.len() as int);
            if v <= u64::MAX {
                r == Ok::<u64, InputError>(v as u64)
            } else {
                r == Err::<u64, InputError>(InputError::TooLarge)
            }
        },
{
    let b = input.as_str().as_bytes();
    let ls = line_bounds(b);
    let ghost all = lines(b@);
    let mut hands: Vec<Vec<u64>> = Vec::new();
    let mut bids: Vec<u64> = Vec::new();
    let mut kinds: Vec<u64> = Vec::new();
    let mut k: usize = 0;
    while k < ls.len()
        invariant
            k <= ls@.len() == all.len(),
            all == lines(b@),
            b@ == bytes_of(input@),
            forall|j: int|
                0 <= j < ls@.len() ==> (#[trigger] ls@[j]).0 <= ls@[j].1 <= b@.len() && b@.subrange(ls@[j].0 as int, ls@[j].1 as int)
                    == all[j],
            players(all, k as int, jokers) is Some,
            hands@.len() == k && bids@.len() == k && kinds@.len() == k,
            forall|t: int|
                0 <= t < k ==> (#[trigger] hands@[t])@.len() == 5 && values(hands@[t]@) == players(all, k as int, jokers)->0[t].0
                    && bids@[t] == players(all, k as int, jokers)->0[t].1 && kinds@[t] == kind(values(hands@[t]@)),
            players(all, k as int, jokers)->0.len() == k,
        decreases ls@.len() - k,
    {
        let (lo, hi) = ls[k];
        assert(b@.subrange(lo as int, hi as int) == all[k as int]);
        match parse_player(b, lo, hi, jokers) {
            None => {
                proof {
                    lemma_players_none(all, k as int + 1, all.len() as int, jokers);
                }
                return Err(InputError::Malformed);
            },
            Some((h, bid)) => {
                let kd = kind_exec(&h);
                proof {
                    let prev = players(all, k as int, jokers)->0;
                    assert(players(all, k + 1, jokers) == Some(prev.push((values(h@), bid as int))));
                }
                hands.push(h);
                bids.push(bid);
                kinds.push(kd);
            },
        }
        k = k + 1;
    }
    let ghost ps = players(all, all.len() as int, jokers)->0;
    let n = hands.len();
    let mut total: u128 = 0;
    let mut big = false;
    let mut i: usize = 0;
    while i < n
        invariant
            i <= n == hands@.len() == bids@.len() == kinds@.len() == ps.len(),
            ps == players(lines(bytes_of(input@)), lines(bytes_of(input@)).len() as int, jokers)->0,
            players(lines(bytes_of(input@)), lines(bytes_of(input@)).len() as int, jokers) is Some,
            forall|t: int|
                0 <= t < n ==> (#[trigger] hands@[t])@.len() == 5 && values(hands@[t]@) == ps[t].0 && bids@[t] == ps[t].1
                    && kinds@[t] == kind(values(hands@[t]@)),
            !big ==> total == winnings(ps, i as int),
            big ==> winnings(ps, i as int) > u64::MAX,
            winnings(ps, i as int) >= 0,
        decreases n - i,
    {
        let mut rank: u128 = 0;
        let mut j: usize = 0;
        while j < n
            invariant
                j <= n == hands@.len() == bids@.len() == kinds@.len() == ps.len(),
                i < n,
                forall|t: int|
                    0 <= t < n ==> (#[trigger] hands@[t])@.len() == 5 && values(hands@[t]@) == ps[t].0 && bids@[t] == ps[t].1
                        && kinds@[t] == kind(values(hands@[t]@)),
                rank == below(ps, i as int, j as int),
                rank <= j,
                !big ==> total == winnings(ps, i as int),
                big ==> winnings(ps, i as int) > u64::MAX,
                winnings(ps, i as int) >= 0,
                ps == players(lines(bytes_of(input@)), lines(bytes_of(input@)).len() as int, jokers)->0,
                players(lines(bytes_of(input@)), lines(bytes_of(input@)).len() as int, jokers) is Some,
            decreases n - j,
        {
            let w = weaker_exec(&hands[j], kinds[j], &hands[i], kinds[i]);
            let mut same = true;
            let mut t: usize = 0;
            while t < 5
                invariant
                    t <= 5,
                    i < n && j < n,
                    n == hands@.len(),
                    hands@[i as int]@.len() == 5 && hands@[j as int]@.len() == 5,
                    same == (forall|u: int| 0 <= u < t ==> hands@[j as int]@[u] == hands@[i as int]@[u]),
                decreases 5 - t,
            {
                if hands[j][t] != hands[i][t] {
                    same = false;
                }
                t = t + 1;
            }
            proof {
                if same {
                    assert(values(hands@[j as int]@) =~= values(hands@[i as int]@));
                } else {
                    let u = choose|u: int| 0 <= u < 5 && hands@[j as int]@[u] != hands@[i as int]@[u];
                    assert(values(hands@[j as int]@)[u] != values(hands@[i as int]@)[u]);
                }
            }
            if w || (same && j < i) {
                rank = rank + 1;
            }
            j = j + 1;
        }
        proof {
            assert((bids@[i as int] as int) * (rank + 1) <= u128::MAX) by (nonlinear_arith)
                requires
                    0 <= bids@[i as int] <= u64::MAX,
                    0 <= rank <= n,
                    n <= u64::MAX,
            ;
            assert((bids@[i as int] as int) * (rank + 1) >= 0) by (nonlinear_arith)
                requires
                    0 <= bids@[i as int],
                    0 <= rank,
            ;
        }
        let term = (bids[i] as u128) * (rank + 1);
        proof {
            assert(hands@[i as int]@.len() == 5);
            assert(bids@[i as int] == ps[i as int].1);
            assert(rank == below(ps, i as int, ps.len() as int));
            assert(winnings(ps, i + 1) == winnings(ps, i as int) + ps[i as int].1 * (below(ps, i as int, ps.len() as int) + 1));
            assert(term == ps[i as int].1 * (below(ps, i as int, ps.len() as int) + 1));
        }
        if !big {
            match total.checked_add(term) {
                Some(v) => {
                    total = v;
                },
                None => {
                    big = true;
                },
            }
        }
        i = i + 1;
    }
    if big || total > 0xffff_ffff_ffff_ffff {
        Err(InputError::TooLarge)
    } else {
        Ok(total as u64)
    }
}

/// Total winnings: each bid times the rank of its hand.
pub fn run_part_1(input: String) -> (r: Result<u64, InputError>)
    ensures
        players(lines(bytes_of(input@)), lines(bytes_of(input@)).len() as int, false) is None <==> r == Err::<
            u64,
            InputError,
        >(InputError::Malformed),
        players(lines(bytes_of(input@)), lines(bytes_of(input@)).len() as int, false) matches Some(ps) ==> {
            let v = winnings(ps, ps.len() as int);
            if v <= u64::MAX {
                r == Ok::<u64, InputError>(v as u64)
            } else {
                r == Err::<u64, InputError>(InputError::TooLarge)
            }
        },
{
    total_winnings(&input, false)
}

/// Total winnings when `J` cards are jokers.
pub fn run_part_2(input: String) -> (r: Result<u64, InputError>)
    ensures
        players(lines(bytes_of(input@)), lines(bytes_of(input@)).len() as int, true) is None <==> r == Err::<
            u64,
            InputError,
        >(InputError::Malformed),
        players(lines(bytes_of(input@)), lines(bytes_of(input@)).len() as int, true) matches Some(ps) ==> {
            let v = winnings(ps, ps.len() as int);
            if v <= u64::MAX {
                r == Ok::<u64, InputError>(v as u64)
            } else {
                r == Err::<u64, InputError>(InputError::TooLarge)
            }
        },
{
    total_winnings(&input, true)
}

} // verus!
