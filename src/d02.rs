use vstd::prelude::*;
use crate::text::after_colon;
use crate::text::bytes_of;
use crate::text::field_bounds;
use crate::text::fields;
use crate::text::line_bounds;
use crate::text::lines;
use crate::text::number;
use crate::text::parse_decimal;
use crate::text::split;
use crate::text::split_bounds;
use crate::text::InputError;

verus! {

/// Cubes shown in a game: the largest number of red, green and blue cubes drawn at once.
pub struct Shown {
    pub red: int,
    pub green: int,
    pub blue: int,
}

/// The colour named by a word: 0 for red, 1 for green, 2 for blue.
pub open spec fn colour(w: Seq<u8>) -> Option<int> {
    if w == seq![114u8, 101, 100] {
        Some(0)
    } else if w == seq![103u8, 114, 101, 101, 110] {
        Some(1)
    } else if w == seq![98u8, 108, 117, 101] {
        Some(2)
    } else {
        None
    }
}

/// A draw such as `3 blue`: its colour and its count.
pub open spec fn draw(d: Seq<u8>) -> Option<(int, int)> {
    let fs = fields(d);
    if fs.len() == 2 && number(fs[0]) is Some && colour(fs[1]) is Some {
        Some((colour(fs[1])->0, number(fs[0])->0 as int))
    } else {
        None
    }
}

/// The draws of the rounds `rs`, each round a comma-separated list.
pub open spec fn draws_of(rs: Seq<Seq<u8>>) -> Seq<Seq<u8>>
    decreases rs.len(),
{
    if rs.len() == 0 {
        seq![]
    } else {
        draws_of(rs.drop_last()) + split(rs.last(), 44)
    }
}

pub open spec fn max(a: int, b: int) -> int {
    if a >= b {
        a
    } else {
        b
    }
}

/// The largest count of each colour among the draws `ds`.
pub open spec fn shown(ds: Seq<Seq<u8>>) -> Option<Shown>
    decreases ds.len(),
{
    if ds.len() == 0 {
        Some(Shown { red: 0, green: 0, blue: 0 })
    } else {
        match (shown(ds.drop_last()), draw(ds.last())) {
            (Some(s), Some((c, n))) => Some(
                if c == 0 {
                    Shown { red: max(s.red, n), ..s }
                } else if c == 1 {
                    Shown { green: max(s.green, n), ..s }
                } else {
                    Shown { blue: max(s.blue, n), ..s }
                },
            ),
            _ => None,
        }
    }
}

/// A game line `Game <id>: <rounds>`: its id and the cubes it shows.
pub open spec fn game(l: Seq<u8>) -> Option<(int, Shown)> {
    let ps = split(l, 58);
    if ps.len() != 2 {
        None
    } else {
        let label = fields(ps[0]);
        if label.len() == 2 && label[0] == seq![71u8, 97, 109, 101] && number(label[1]) is Some {
            match shown(draws_of(split(ps[1], 59))) {
                Some(s) => Some((number(label[1])->0 as int, s)),
                None => None,
            }
        } else {
            None
        }
    }
}

/// Sum over the games of `ls` of `value(id, shown)`, chosen by `power`: the power of the
/// cubes shown, or the id of a game possible with 12 red, 13 green and 14 blue cubes.
pub open spec fn game_sum(ls: Seq<Seq<u8>>, power: bool) -> Option<int>
    decreases ls.len(),
{
    if ls.len() == 0 {
        Some(0)
    } else {
        match (game_sum(ls.drop_last(), power), game(ls.last())) {
            (Some(x), Some((id, s))) => Some(
                x + if power {
                    s.red * s.green * s.blue
                } else if s.red <= 12 && s.green <= 13 && s.blue <= 14 {
                    id
                } else {
                    0
                },
            ),
            _ => None,
        }
    }
}

fn equals(b: &[u8], lo: usize, hi: usize, w: &Vec<u8>) -> (r: bool)
    requires
        lo <= hi <= b@.len(),
    ensures
        r == (b@.subrange(lo as int, hi as int) == w@),
{
    if hi - lo != w.len() {
        return false;
    }
    let mut k: usize = 0;
    while k < w.len()
        invariant
            k <= w@.len() == hi - lo,
            lo <= hi <= b@.len(),
            forall|j: int| 0 <= j < k ==> b@[lo + j] == w@[j],
        decreases w@.len() - k,
    {
        if b[lo + k] != w[k] {
            assert(b@.subrange(lo as int, hi as int)[k as int] != w@[k as int]);
            return false;
        }
        k = k + 1;
    }
    assert(b@.subrange(lo as int, hi as int) =~= w@);
    true
}

fn parse_draw(b: &[u8], lo: usize, hi: usize) -> (r: Option<(u8, u64)>)
    requires
        lo <= hi <= b@.len(),
    ensures
        r is Some <==> draw(b@.subrange(lo as int, hi as int)) is Some,
        r matches Some((c, n)) ==> draw(b@.subrange(lo as int, hi as int)) == Some((c as int, n as int)),
{
    let fs = field_bounds(b, lo, hi);
    if fs.len() != 2 {
        return None;
    }
    let (a0, z0) = fs[0];
    let (a1, z1) = fs[1];
    let n = match parse_decimal(b, a0, z0) {
        Some(n) => n,
        None => {
            return None;
        },
    };
    let red: Vec<u8> = vec![114u8, 101, 100];
    let green: Vec<u8> = vec![103u8, 114, 101, 101, 110];
    let blue: Vec<u8> = vec![98u8, 108, 117, 101];
    assert(red@ =~= seq![114u8, 101, 100]);
    assert(green@ =~= seq![103u8, 114, 101, 101, 110]);
    assert(blue@ =~= seq![98u8, 108, 117, 101]);
    if equals(b, a1, z1, &red) {
        Some((0, n))
    } else if equals(b, a1, z1, &green) {
        Some((1, n))
    } else if equals(b, a1, z1, &blue) {
        Some((2, n))
    } else {
        None
    }
}

/// The id of the game on `b[lo..hi]` and the cubes it shows.
fn parse_game(b: &[u8], lo: usize, hi: usize) -> (r: Option<(u64, u64, u64, u64)>)
    requires
        lo <= hi <= b@.len(),
    ensures
        r is Some <==> game(b@.subrange(lo as int, hi as int)) is Some,
        r matches Some((id, red, green, blue)) ==> game(b@.subrange(lo as int, hi as int)) == Some(
            (id as int, Shown { red: red as int, green: green as int, blue: blue as int }),
        ),
{
    let ghost l = b@.subrange(lo as int, hi as int);
    let ps = split_bounds(b, lo, hi, 58);
    if ps.len() != 2 {
        return None;
    }
    let (a0, z0) = ps[0];
    let (a1, z1) = ps[1];
    let label = field_bounds(b, a0, z0);
    if label.len() != 2 {
        return None;
    }
    let (la, lz) = label[0];
    let word: Vec<u8> = vec![71u8, 97, 109, 101];
    assert(word@ =~= seq![71u8, 97, 109, 101]);
    if !equals(b, la, lz, &word) {
        return None;
    }
    let (na, nz) = label[1];
    let id = match parse_decimal(b, na, nz) {
        Some(v) => v,
        None => {
            return None;
        },
    };
    let rounds = split_bounds(b, a1, z1, 59);
    let ghost rs = split(b@.subrange(a1 as int, z1 as int), 59);
    let mut red: u64 = 0;
    let mut green: u64 = 0;
    let mut blue: u64 = 0;
    assert(game(l) == match shown(draws_of(rs)) {
        Some(s) => Some((id as int, s)),
        None => None,
    });
    let mut k: usize = 0;
    while k < rounds.len()
        invariant
            l == b@.subrange(lo as int, hi as int),
            game(l) == match shown(draws_of(rs)) {
                Some(s) => Some((id as int, s)),
                None => None,
            },
            k <= rounds@.len() == rs.len(),
            a1 <= z1 <= b@.len(),
            rs == split(b@.subrange(a1 as int, z1 as int), 59),
            forall|j: int|
                0 <= j < rounds@.len() ==> (#[trigger] rounds@[j]).0 <= rounds@[j].1 <= b@.len() && b@.subrange(
                    rounds@[j].0 as int,
                    rounds@[j].1 as int,
                ) == rs[j],
            shown(draws_of(rs.take(k as int))) == Some(Shown { red: red as int, green: green as int, blue: blue as int }),
        decreases rounds@.len() - k,
    {
        let (ra, rz) = rounds[k];
        let ds = split_bounds(b, ra, rz, 44);
        let ghost before = draws_of(rs.take(k as int));
        let ghost dsv = split(b@.subrange(ra as int, rz as int), 44);
        assert(rs.take(k + 1).drop_last() =~= rs.take(k as int));
        assert(draws_of(rs.take(k + 1)) == before + dsv);
        let mut i: usize = 0;
        while i < ds.len()
            invariant
                l == b@.subrange(lo as int, hi as int),
                game(l) == match shown(draws_of(rs)) {
                    Some(s) => Some((id as int, s)),
                    None => None,
                },
                k < rs.len(),
                before == draws_of(rs.take(k as int)),
                draws_of(rs.take(k + 1)) == before + dsv,
                i <= ds@.len() == dsv.len(),
                ra <= rz <= b@.len(),
                dsv == split(b@.subrange(ra as int, rz as int), 44),
                forall|j: int|
                    0 <= j < ds@.len() ==> (#[trigger] ds@[j]).0 <= ds@[j].1 <= b@.len() && b@.subrange(
                        ds@[j].0 as int,
                        ds@[j].1 as int,
                    ) == dsv[j],
                shown(before + dsv.take(i as int)) == Some(
                    Shown { red: red as int, green: green as int, blue: blue as int },
                ),
            decreases ds@.len() - i,
        {
            let (da, dz) = ds[i];
            assert((before + dsv.take(i + 1)).drop_last() =~= before + dsv.take(i as int));
            assert((before + dsv.take(i + 1)).last() == dsv[i as int]);
            match parse_draw(b, da, dz) {
                None => {
                    proof {
                        lemma_shown_none(before + dsv, before.len() + i);
                        assert((before + dsv)[before.len() + i] == dsv[i as int]);
                        lemma_shown_prefix_none(rs, k as int, before + dsv);
                    }
                    return None;
                },
                Some((c, n)) => {
                    if c == 0 {
                        if n > red {
                            red = n;
                        }
                    } else if c == 1 {
                        if n > green {
                            green = n;
                        }
                    } else {
                        if n > blue {
                            blue = n;
                        }
                    }
                },
            }
            i = i + 1;
        }
        assert(dsv.take(i as int) =~= dsv);
        k = k + 1;
    }
    assert(rs.take(k as int) =~= rs);
    Some((id, red, green, blue))
}

proof fn lemma_shown_none(ds: Seq<Seq<u8>>, k: int)
    requires
        0 <= k < ds.len(),
        draw(ds[k]) is None,
    ensures
        shown(ds) is None,
    decreases ds.len(),
{
    if k < ds.len() - 1 {
        lemma_shown_none(ds.drop_last(), k);
    }
}

proof fn lemma_shown_extend_none(a: Seq<Seq<u8>>, b: Seq<Seq<u8>>)
    requires
        shown(a) is None,
    ensures
        shown(a + b) is None,
    decreases b.len(),
{
    if b.len() > 0 {
        assert((a + b).drop_last() =~= a + b.drop_last());
        lemma_shown_extend_none(a, b.drop_last());
    } else {
        assert(a + b =~= a);
    }
}

proof fn lemma_draws_split(rs: Seq<Seq<u8>>, k: int)
    requires
        0 <= k <= rs.len(),
    ensures
        draws_of(rs) == draws_of(rs.take(k)) + draws_of(rs.skip(k)),
    decreases rs.len() - k,
{
    if k == rs.len() {
        assert(rs.take(k) =~= rs);
        assert(rs.skip(k) =~= Seq::<Seq<u8>>::empty());
        assert(draws_of(rs.take(k)) + seq![] =~= draws_of(rs.take(k)));
    } else {
        lemma_draws_split(rs, k + 1);
        assert(rs.take(k + 1).drop_last() =~= rs.take(k));
        assert(rs.skip(k).drop_first() =~= rs.skip(k + 1));
        lemma_draws_front(rs.skip(k));
        assert(draws_of(rs.take(k + 1)) == draws_of(rs.take(k)) + split(rs[k], 44));
        assert(draws_of(rs.skip(k)) == split(rs[k], 44) + draws_of(rs.skip(k + 1)));
        assert(draws_of(rs.take(k)) + split(rs[k], 44) + draws_of(rs.skip(k + 1)) =~= draws_of(rs.take(k)) + (split(
            rs[k],
            44,
        ) + draws_of(rs.skip(k + 1))));
    }
}

proof fn lemma_draws_front(rs: Seq<Seq<u8>>)
    requires
        rs.len() > 0,
    ensures
        draws_of(rs) == split(rs[0], 44) + draws_of(rs.drop_first()),
    decreases rs.len(),
{
    if rs.len() == 1 {
        assert(rs.drop_last() =~= Seq::<Seq<u8>>::empty());
        assert(rs.drop_first() =~= Seq::<Seq<u8>>::empty());
        assert(split(rs[0], 44) + seq![] =~= split(rs[0], 44));
        assert(seq![] + split(rs[0], 44) =~= split(rs[0], 44));
    } else {
        lemma_draws_front(rs.drop_last());
        assert(rs.drop_last().drop_first() =~= rs.drop_first().drop_last());
        assert(split(rs[0], 44) + draws_of(rs.drop_first().drop_last()) + split(rs.last(), 44) =~= split(rs[0], 44) + (
        draws_of(rs.drop_first().drop_last()) + split(rs.last(), 44)));
    }
}

proof fn lemma_shown_prefix_none(rs: Seq<Seq<u8>>, k: int, prefix: Seq<Seq<u8>>)
    requires
        0 <= k < rs.len(),
        prefix == draws_of(rs.take(k + 1)),
        shown(prefix) is None,
    ensures
        shown(draws_of(rs)) is None,
{
    lemma_draws_split(rs, k + 1);
    lemma_shown_extend_none(prefix, draws_of(rs.skip(k + 1)));
}

proof fn lemma_game_sum_none(ls: Seq<Seq<u8>>, k: int, power: bool)
    requires
        0 <= k < ls.len(),
        game(ls[k]) is None,
    ensures
        game_sum(ls, power) is None,
    decreases ls.len(),
{
    if k < ls.len() - 1 {
        lemma_game_sum_none(ls.drop_last(), k, power);
    }
}

fn total(input: &String, power: bool) -> (r: Result<u64, InputError>)
    ensures
        game_sum(lines(bytes_of(input@)), power) is None <==> r == Err::<u64, InputError>(InputError::Malformed),
        game_sum(lines(bytes_of(input@)), power) matches Some(v) ==> if v <= u64::MAX {
            r == Ok::<u64, InputError>(v as u64)
        } else {
            r == Err::<u64, InputError>(InputError::TooLarge)
        },
{
    let b = input.as_str().as_bytes();
    let ls = line_bounds(b);
    let ghost all = lines(b@);
    let mut sum: u64 = 0;
    let mut overflow = false;
    let mut k: usize = 0;
    while k < ls.len()
        invariant
            k <= ls@.len() == all.len(),
            all == lines(b@),
            b@ == bytes_of(input@),
            forall|j: int|
                0 <= j < ls@.len() ==> (#[trigger] ls@[j]).0 <= ls@[j].1 <= b@.len() && b@.subrange(ls@[j].0 as int, ls@[j].1 as int)
                    == all[j],
            game_sum(all.take(k as int), power) is Some,
            game_sum(all.take(k as int), power)->0 >= 0,
            !overflow ==> game_sum(all.take(k as int), power) == Some(sum as int),
            overflow ==> game_sum(all.take(k as int), power)->0 > u64::MAX,
        decreases ls@.len() - k,
    {
        let (lo, hi) = ls[k];
        assert(all.take(k + 1).drop_last() =~= all.take(k as int));
        assert(b@.subrange(lo as int, hi as int) == all[k as int]);
        match parse_game(b, lo, hi) {
            None => {
                proof {
                    lemma_game_sum_none(all, k as int, power);
                }
                return Err(InputError::Malformed);
            },
            Some((id, red, green, blue)) => {
                proof {
                    assert(red * green * blue >= 0) by (nonlinear_arith)
                        requires
                            red >= 0,
                            green >= 0,
                            blue >= 0,
                    ;
                }
                let v: Option<u64> = if power {
                    if red == 0 || green == 0 || blue == 0 {
                        assert(red * green * blue == 0) by (nonlinear_arith)
                            requires
                                red == 0 || green == 0 || blue == 0,
                        ;
                        Some(0)
                    } else {
                        match red.checked_mul(green) {
                            Some(rg) => rg.checked_mul(blue),
                            None => {
                                assert(red * green * blue > u64::MAX) by (nonlinear_arith)
                                    requires
                                        red * green > u64::MAX,
                                        blue >= 1,
                                ;
                                None
                            },
                        }
                    }
                } else if red <= 12 && green <= 13 && blue <= 14 {
                    Some(id)
                } else {
                    Some(0)
                };
                match v {
                    Some(v) => match sum.checked_add(v) {
                        Some(t) => {
                            sum = t;
                        },
                        None => {
                            overflow = true;
                        },
                    },
                    None => {
                        overflow = true;
                    },
                }
            },
        }
        k = k + 1;
    }
    assert(all.take(k as int) =~= all);
    if overflow {
        Err(InputError::TooLarge)
    } else {
        Ok(sum)
    }
}

/// Sum of the ids of the games possible with 12 red, 13 green and 14 blue cubes.
pub fn run_part_1(input: String) -> (r: Result<u64, InputError>)
    ensures
        game_sum(lines(bytes_of(input@)), false) is None <==> r == Err::<u64, InputError>(InputError::Malformed),
        game_sum(lines(bytes_of(input@)), false) matches Some(v) ==> if v <= u64::MAX {
            r == Ok::<u64, InputError>(v as u64)
        } else {
            r == Err::<u64, InputError>(InputError::TooLarge)
        },
{
    total(&input, false)
}

/// Sum over the games of the product of the fewest red, green and blue cubes each needs.
pub fn run_part_2(input: String) -> (r: Result<u64, InputError>)
    ensures
        game_sum(lines(bytes_of(input@)), true) is None <==> r == Err::<u64, InputError>(InputError::Malformed),
        game_sum(lines(bytes_of(input@)), true) matches Some(v) ==> if v <= u64::MAX {
            r == Ok::<u64, InputError>(v as u64)
        } else {
            r == Err::<u64, InputError>(InputError::TooLarge)
        },
{
    total(&input, true)
}

} // verus!
