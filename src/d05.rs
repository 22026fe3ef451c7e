use vstd::prelude::*;
use crate::text::after_colon;
use crate::text::block_bounds;
use crate::text::blocks;
use crate::text::bytes_of;
use crate::text::numbers;
use crate::text::parse_numbers;
use crate::text::split_bounds;
use crate::text::InputError;

verus! {

/// One line of a map: destination start, source start and length of a range.
pub struct Entry {
    pub dst: int,
    pub src: int,
    pub len: int,
}

/// The entries on the lines of a map block, after its header line.
pub open spec fn entries_of(ls: Seq<Seq<u8>>, n: int) -> Option<Seq<Entry>>
    decreases n,
{
    if n <= 1 {
        Some(seq![])
    } else {
        match (entries_of(ls, n - 1), numbers(ls[n - 1])) {
            (Some(es), Some(v)) => if v.len() == 3 {
                Some(es.push(Entry { dst: v[0] as int, src: v[1] as int, len: v[2] as int }))
            } else {
                None
            },
            _ => None,
        }
    }
}

/// The maps of the blocks after the first, each a header line and then its entries.
pub open spec fn maps_of(bs: Seq<Seq<Seq<u8>>>, n: int) -> Option<Seq<Seq<Entry>>>
    decreases n,
{
    if n <= 1 {
        Some(seq![])
    } else {
        match (maps_of(bs, n - 1), entries_of(bs[n - 1], bs[n - 1].len() as int)) {
            (Some(ms), Some(es)) => if bs[n - 1].len() >= 1 {
                Some(ms.push(es))
            } else {
                None
            },
            _ => None,
        }
    }
}

/// The seeds and the maps of an almanac.
pub open spec fn almanac(b: Seq<u8>) -> Option<(Seq<u64>, Seq<Seq<Entry>>)> {
    let bs = blocks(b);
    if bs[0].len() != 1 {
        None
    } else {
        match (after_colon(bs[0][0]), maps_of(bs, bs.len() as int)) {
            (Some(x), Some(ms)) => match numbers(x) {
                Some(seeds) => Some((seeds, ms)),
                None => None,
            },
            _ => None,
        }
    }
}

/// Where the first `n` entries of a map send `v`: the first entry whose source range
/// holds it shifts it to the destination range; without one it stays.
pub open spec fn send(es: Seq<Entry>, n: int, v: int) -> int
    decreases n,
{
    if n <= 0 {
        v
    } else if es[es.len() - n].src <= v < es[es.len() - n].src + es[es.len() - n].len {
        es[es.len() - n].dst + v - es[es.len() - n].src
    } else {
        send(es, n - 1, v)
    }
}

/// `v` sent through the first `n` maps.
pub open spec fn location(ms: Seq<Seq<Entry>>, n: int, v: int) -> int
    decreases n,
{
    if n <= 0 {
        v
    } else {
        send(ms[n - 1], ms[n - 1].len() as int, location(ms, n - 1, v))
    }
}

/// The least location among the first `n` seeds.
pub open spec fn lowest(seeds: Seq<u64>, ms: Seq<Seq<Entry>>, n: int) -> int
    decreases n,
{
    if n <= 1 {
        location(ms, ms.len() as int, seeds[0] as int)
    } else {
        let a = lowest(seeds, ms, n - 1);
        let b = location(ms, ms.len() as int, seeds[n - 1] as int);
        if b < a {
            b
        } else {
            a
        }
    }
}

/// Reads the entries of a map block whose lines are `rows`.
fn parse_map(b: &[u8], rows: &Vec<(usize, usize)>, Ghost(p): Ghost<Seq<Seq<u8>>>) -> (r: Option<Vec<(u128, u128, u128)>>)
    requires
        rows@.len() == p.len(),
        forall|j: int|
            0 <= j < rows@.len() ==> (#[trigger] rows@[j]).0 <= rows@[j].1 <= b@.len() && b@.subrange(
                rows@[j].0 as int,
                rows@[j].1 as int,
            ) == p[j],
    ensures
        r is Some <==> entries_of(p, p.len() as int) is Some,
        r matches Some(v) ==> v@.len() == entries_of(p, p.len() as int)->0.len() && forall|i: int|
            0 <= i < v@.len() ==> {
                let e = entries_of(p, p.len() as int)->0[i];
                &&& (#[trigger] v@[i]).0 == e.dst
                &&& v@[i].1 == e.src
                &&& v@[i].2 == e.len
                &&& e.dst <= u64::MAX && e.src <= u64::MAX && e.len <= u64::MAX
            },
{
    let mut out: Vec<(u128, u128, u128)> = Vec::new();
    let mut k: usize = 1;
    if rows.len() == 0 {
        return Some(out);
    }
    while k < rows.len()
        invariant
            1 <= k <= rows@.len() == p.len(),
            forall|j: int|
                0 <= j < rows@.len() ==> (#[trigger] rows@[j]).0 <= rows@[j].1 <= b@.len() && b@.subrange(
                    rows@[j].0 as int,
                    rows@[j].1 as int,
                ) == p[j],
            entries_of(p, k as int) is Some,
            out@.len() == entries_of(p, k as int)->0.len(),
            forall|i: int|
                0 <= i < out@.len() ==> {
                    let e = entries_of(p, k as int)->0[i];
                    &&& (#[trigger] out@[i]).0 == e.dst
                    &&& out@[i].1 == e.src
                    &&& out@[i].2 == e.len
                    &&& e.dst <= u64::MAX && e.src <= u64::MAX && e.len <= u64::MAX
                },
        decreases rows@.len() - k,
    {
        let (lo, hi) = rows[k];
        match parse_numbers(b, lo, hi) {
            None => {
                proof {
                    lemma_entries_none(p, k as int + 1, p.len() as int);
                }
                return None;
            },
            Some(v) => {
                if v.len() != 3 {
                    proof {
                        lemma_entries_none(p, k as int + 1, p.len() as int);
                    }
                    return None;
                }
                out.push((v[0] as u128, v[1] as u128, v[2] as u128));
            },
        }
        k = k + 1;
    }
    Some(out)
}

proof fn lemma_entries_none(p: Seq<Seq<u8>>, k: int, n: int)
    requires
        2 <= k <= n,
        entries_of(p, k) is None,
    ensures
        entries_of(p, n) is None,
    decreases n - k,
{
    if k < n {
        lemma_entries_none(p, k, n - 1);
    }
}

proof fn lemma_maps_none(bs: Seq<Seq<Seq<u8>>>, k: int, n: int)
    requires
        2 <= k <= n,
        maps_of(bs, k) is None,
    ensures
        maps_of(bs, n) is None,
    decreases n - k,
{
    if k < n {
        lemma_maps_none(bs, k, n - 1);
    }
}

/// Where the map `es` sends `v`.
fn send_exec(es: &Vec<(u128, u128, u128)>, v: u128, Ghost(e): Ghost<Seq<Entry>>) -> (r: u128)
    requires
        es@.len() == e.len(),
        v <= 2 * (u64::MAX as int),
        forall|i: int|
            0 <= i < es@.len() ==> {
                &&& (#[trigger] es@[i]).0 == e[i].dst
                &&& es@[i].1 == e[i].src
                &&& es@[i].2 == e[i].len
                &&& e[i].dst <= u64::MAX && e[i].src <= u64::MAX && e[i].len <= u64::MAX
            },
    ensures
        r == send(e, e.len() as int, v as int),
        r <= 2 * (u64::MAX as int),
{
    let mut i: usize = 0;
    while i < es.len()
        invariant
            i <= es@.len() == e.len(),
            v <= 2 * (u64::MAX as int),
            forall|j: int|
                0 <= j < es@.len() ==> {
                    &&& (#[trigger] es@[j]).0 == e[j].dst
                    &&& es@[j].1 == e[j].src
                    &&& es@[j].2 == e[j].len
                    &&& e[j].dst <= u64::MAX && e[j].src <= u64::MAX && e[j].len <= u64::MAX
                },
            send(e, e.len() as int, v as int) == send(e, e.len() - i, v as int),
        decreases es@.len() - i,
    {
        let (dst, src, len) = es[i];
        if src <= v && v < src + len {
            return dst + (v - src);
        }
        i = i + 1;
    }
    v
}

/// The lowest location that any seed of the almanac in `input` is sent to.
pub fn run_part_1(input: String) -> (r: Result<u64, InputError>)
    ensures
        match almanac(bytes_of(input@)) {
            None => r == Err::<u64, InputError>(InputError::Malformed),
            Some((seeds, ms)) => if seeds.len() == 0 {
                r == Err::<u64, InputError>(InputError::Malformed)
            } else if lowest(seeds, ms, seeds.len() as int) <= u64::MAX {
                r == Ok::<u64, InputError>(lowest(seeds, ms, seeds.len() as int) as u64)
            } else {
                r == Err::<u64, InputError>(InputError::TooLarge)
            },
        },
{
    let b = input.as_str().as_bytes();
    let bs = block_bounds(b);
    let ghost sb = blocks(b@);
    proof {
        crate::text::lemma_blocks_nonempty(crate::text::lines(b@), seq![]);
    }
    if bs[0].len() != 1 {
        return Err(InputError::Malformed);
    }
    let (lo, hi) = bs[0][0];
    let parts = split_bounds(b, lo, hi, 58);
    if parts.len() != 2 {
        return Err(InputError::Malformed);
    }
    let (sa, sz) = parts[1];
    assert(b@.subrange(lo as int, hi as int) == sb[0][0]);
    let mut maps: Vec<Vec<(u128, u128, u128)>> = Vec::new();
    let ghost mut ms: Seq<Seq<Entry>> = seq![];
    let mut k: usize = 1;
    while k < bs.len()
        invariant
            1 <= k <= bs@.len() == sb.len(),
            sb == blocks(b@),
            b@ == bytes_of(input@),
            sb[0].len() == 1,
            sa <= sz <= b@.len(),
            after_colon(sb[0][0]) == Some(b@.subrange(sa as int, sz as int)),
            forall|t: int|
                0 <= t < bs@.len() ==> (#[trigger] bs@[t])@.len() == sb[t].len() && forall|j: int|
                    0 <= j < bs@[t]@.len() ==> (#[trigger] bs@[t]@[j]).0 <= bs@[t]@[j].1 <= b@.len() && b@.subrange(
                        bs@[t]@[j].0 as int,
                        bs@[t]@[j].1 as int,
                    ) == sb[t][j],
            maps_of(sb, k as int) == Some(ms),
            maps@.len() == ms.len(),
            forall|t: int|
                0 <= t < maps@.len() ==> (#[trigger] maps@[t])@.len() == ms[t].len() && forall|i: int|
                    0 <= i < maps@[t]@.len() ==> {
                        &&& (#[trigger] maps@[t]@[i]).0 == ms[t][i].dst
                        &&& maps@[t]@[i].1 == ms[t][i].src
                        &&& maps@[t]@[i].2 == ms[t][i].len
                        &&& ms[t][i].dst <= u64::MAX && ms[t][i].src <= u64::MAX && ms[t][i].len <= u64::MAX
                    },
        decreases bs@.len() - k,
    {
        let rows = &bs[k];
        if rows.len() == 0 {
            proof {
                lemma_maps_none(sb, k as int + 1, sb.len() as int);
            }
            return Err(InputError::Malformed);
        }
        match parse_map(b, rows, Ghost(sb[k as int])) {
            None => {
                proof {
                    lemma_maps_none(sb, k as int + 1, sb.len() as int);
                }
                return Err(InputError::Malformed);
            },
            Some(es) => {
                proof {
                    ms = ms.push(entries_of(sb[k as int], sb[k as int].len() as int)->0);
                }
                maps.push(es);
            },
        }
        k = k + 1;
    }
    let seeds = match parse_numbers(b, sa, sz) {
        Some(v) => v,
        None => {
            return Err(InputError::Malformed);
        },
    };
    assert(almanac(bytes_of(input@)) == Some((seeds@, ms)));
    if seeds.len() == 0 {
        return Err(InputError::Malformed);
    }
    let mut best: u128 = 0;
    let mut i: usize = 0;
    while i < seeds.len()
        invariant
            i <= seeds@.len(),
            seeds@.len() >= 1,
            almanac(bytes_of(input@)) == Some((seeds@, ms)),
            best <= 2 * (u64::MAX as int),
            maps@.len() == ms.len(),
            forall|t: int|
                0 <= t < maps@.len() ==> (#[trigger] maps@[t])@.len() == ms[t].len() && forall|i: int|
                    0 <= i < maps@[t]@.len() ==> {
                        &&& (#[trigger] maps@[t]@[i]).0 == ms[t][i].dst
                        &&& maps@[t]@[i].1 == ms[t][i].src
                        &&& maps@[t]@[i].2 == ms[t][i].len
                        &&& ms[t][i].dst <= u64::MAX && ms[t][i].src <= u64::MAX && ms[t][i].len <= u64::MAX
                    },
            i > 0 ==> best == lowest(seeds@, ms, i as int),
        decreases seeds@.len() - i,
    {
        let mut v: u128 = seeds[i] as u128;
        let mut m: usize = 0;
        while m < maps.len()
            invariant
                m <= maps@.len() == ms.len(),
                i < seeds@.len(),
                forall|t: int|
                    0 <= t < maps@.len() ==> (#[trigger] maps@[t])@.len() == ms[t].len() && forall|i: int|
                        0 <= i < maps@[t]@.len() ==> {
                            &&& (#[trigger] maps@[t]@[i]).0 == ms[t][i].dst
                            &&& maps@[t]@[i].1 == ms[t][i].src
                            &&& maps@[t]@[i].2 == ms[t][i].len
                            &&& ms[t][i].dst <= u64::MAX && ms[t][i].src <= u64::MAX && ms[t][i].len <= u64::MAX
                        },
                v == location(ms, m as int, seeds@[i as int] as int),
                seeds@[i as int] <= u64::MAX,
                i > 0 ==> best == lowest(seeds@, ms, i as int),
                best <= 2 * (u64::MAX as int),
                almanac(bytes_of(input@)) == Some((seeds@, ms)),
                v <= 2 * (u64::MAX as int),
            decreases maps@.len() - m,
        {
            v = send_exec(&maps[m], v, Ghost(ms[m as int]));
            m = m + 1;
        }
        if i == 0 || v < best {
            best = v;
        }
        i = i + 1;
    }
    if best > 0xffff_ffff_ffff_ffff {
        Err(InputError::TooLarge)
    } else {
        Ok(best as u64)
    }
}

} // verus!
