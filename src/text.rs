use vstd::prelude::*;

verus! {

/// Why a puzzle input gives no answer.
#[derive(Clone, Copy, PartialEq, Eq, Structural, Debug)]
pub enum InputError {
    /// The text is not in the expected shape.
    Malformed,
    /// The answer does not fit in the result type.
    TooLarge,
}

/// The bytes of a string, as UTF-8.
pub open spec fn bytes_of(s: Seq<char>) -> Seq<u8> {
    vstd::utf8::encode_utf8(s)
}

/// The lines of the trimmed text `b`.
pub open spec fn lines(b: Seq<u8>) -> Seq<Seq<u8>> {
    split(trim(b), 10)
}

/// Bounds in `b` of the lines of its trimmed text.
pub fn line_bounds(b: &[u8]) -> (r: Vec<(usize, usize)>)
    ensures
        r@.len() == lines(b@).len(),
        forall|k: int|
            0 <= k < r@.len() ==> (#[trigger] r@[k]).0 <= r@[k].1 <= b@.len() && b@.subrange(r@[k].0 as int, r@[k].1 as int)
                == lines(b@)[k],
{
    let (s, e) = trim_bounds(b);
    split_bounds(b, s, e, 10)
}

pub open spec fn is_digit(c: u8) -> bool {
    48 <= c <= 57
}

/// A one-byte White_Space character: tab, line feed, vertical tab, form feed, carriage
/// return or space.
pub open spec fn white1(a: u8) -> bool {
    (9 <= a <= 13) || a == 32
}

/// The UTF-8 encoding, in two bytes, of a White_Space character (U+0085, U+00A0).
pub open spec fn white2(a: u8, b: u8) -> bool {
    a == 0xC2 && (b == 0x85 || b == 0xA0)
}

/// The UTF-8 encoding, in three bytes, of a White_Space character (U+1680,
/// U+2000 to U+200A, U+2028, U+2029, U+202F, U+205F, U+3000).
pub open spec fn white3(a: u8, b: u8, c: u8) -> bool {
    (a == 0xE1 && b == 0x9A && c == 0x80) || (a == 0xE2 && b == 0x80 && ((0x80 <= c <= 0x8A) || c == 0xA8 || c
        == 0xA9 || c == 0xAF)) || (a == 0xE2 && b == 0x81 && c == 0x9F) || (a == 0xE3 && b == 0x80 && c == 0x80)
}

/// Length in bytes of the White_Space character that `b` starts with, or 0.
pub open spec fn lead_white(b: Seq<u8>) -> int {
    if b.len() >= 1 && white1(b[0]) {
        1
    } else if b.len() >= 2 && white2(b[0], b[1]) {
        2
    } else if b.len() >= 3 && white3(b[0], b[1], b[2]) {
        3
    } else {
        0
    }
}

/// Length in bytes of the White_Space character that `b` ends with, or 0.
pub open spec fn trail_white(b: Seq<u8>) -> int {
    let n = b.len() as int;
    if n >= 1 && white1(b[n - 1]) {
        1
    } else if n >= 2 && white2(b[n - 2], b[n - 1]) {
        2
    } else if n >= 3 && white3(b[n - 3], b[n - 2], b[n - 1]) {
        3
    } else {
        0
    }
}

/// `b` without its leading White_Space characters.
pub open spec fn skip_lead(b: Seq<u8>) -> Seq<u8>
    decreases b.len(),
{
    if lead_white(b) > 0 {
        skip_lead(b.subrange(lead_white(b), b.len() as int))
    } else {
        b
    }
}

/// `b` without its trailing White_Space characters.
pub open spec fn skip_trail(b: Seq<u8>) -> Seq<u8>
    decreases b.len(),
{
    if trail_white(b) > 0 {
        skip_trail(b.subrange(0, b.len() - trail_white(b)))
    } else {
        b
    }
}

/// The UTF-8 text `b` without the White_Space characters at either end, as
/// `str::trim` leaves it.
pub open spec fn trim(b: Seq<u8>) -> Seq<u8> {
    skip_trail(skip_lead(b))
}

fn white_start(b: &[u8], s: usize, e: usize) -> (k: usize)
    requires
        s <= e <= b@.len(),
    ensures
        k == lead_white(b@.subrange(s as int, e as int)),
{
    if e - s >= 1 && b[s] >= 9 && b[s] <= 13 || e - s >= 1 && b[s] == 32 {
        return 1;
    }
    if e - s >= 2 && b[s] == 0xC2 && (b[s + 1] == 0x85 || b[s + 1] == 0xA0) {
        return 2;
    }
    if e - s >= 3 {
        let (a, c, d) = (b[s], b[s + 1], b[s + 2]);
        if (a == 0xE1 && c == 0x9A && d == 0x80) || (a == 0xE2 && c == 0x80 && ((d >= 0x80 && d <= 0x8A) || d
            == 0xA8 || d == 0xA9 || d == 0xAF)) || (a == 0xE2 && c == 0x81 && d == 0x9F) || (a == 0xE3 && c == 0x80
            && d == 0x80) {
            return 3;
        }
    }
    0
}

fn white_end(b: &[u8], s: usize, e: usize) -> (k: usize)
    requires
        s <= e <= b@.len(),
    ensures
        k == trail_white(b@.subrange(s as int, e as int)),
{
    if e - s >= 1 && (b[e - 1] >= 9 && b[e - 1] <= 13 || b[e - 1] == 32) {
        return 1;
    }
    if e - s >= 2 && b[e - 2] == 0xC2 && (b[e - 1] == 0x85 || b[e - 1] == 0xA0) {
        return 2;
    }
    if e - s >= 3 {
        let (a, c, d) = (b[e - 3], b[e - 2], b[e - 1]);
        if (a == 0xE1 && c == 0x9A && d == 0x80) || (a == 0xE2 && c == 0x80 && ((d >= 0x80 && d <= 0x8A) || d
            == 0xA8 || d == 0xA9 || d == 0xAF)) || (a == 0xE2 && c == 0x81 && d == 0x9F) || (a == 0xE3 && c == 0x80
            && d == 0x80) {
            return 3;
        }
    }
    0
}

/// The bounds of `b` once White_Space characters are cut from both ends.
pub fn trim_bounds(b: &[u8]) -> (r: (usize, usize))
    ensures
        r.0 <= r.1 <= b@.len(),
        b@.subrange(r.0 as int, r.1 as int) == trim(b@),
{
    let n = b.len();
    let mut s: usize = 0;
    assert(b@.subrange(0, n as int) =~= b@);
    let mut k = white_start(b, s, n);
    while k > 0
        invariant
            s <= n,
            n == b@.len(),
            k == lead_white(b@.subrange(s as int, n as int)),
            skip_lead(b@) == skip_lead(b@.subrange(s as int, n as int)),
        decreases n - s,
    {
        assert(b@.subrange(s as int, n as int).subrange(k as int, n - s) =~= b@.subrange(s + k, n as int));
        s = s + k;
        k = white_start(b, s, n);
    }
    let mut e: usize = n;
    let mut k = white_end(b, s, e);
    while k > 0
        invariant
            s <= e <= n,
            n == b@.len(),
            k == trail_white(b@.subrange(s as int, e as int)),
            skip_lead(b@) == b@.subrange(s as int, n as int),
            skip_trail(skip_lead(b@)) == skip_trail(b@.subrange(s as int, e as int)),
        decreases e - s,
    {
        assert(b@.subrange(s as int, e as int).subrange(0, e - s - k) =~= b@.subrange(s as int, e - k));
        e = e - k;
        k = white_end(b, s, e);
    }
    (s, e)
}

/// The pieces of `s` between occurrences of `sep`, the first of them prefixed by `cur`.
pub open spec fn split_from(s: Seq<u8>, sep: u8, cur: Seq<u8>) -> Seq<Seq<u8>>
    decreases s.len(),
{
    if s.len() == 0 {
        seq![cur]
    } else if s[0] == sep {
        seq![cur] + split_from(s.drop_first(), sep, seq![])
    } else {
        split_from(s.drop_first(), sep, cur.push(s[0]))
    }
}

/// The pieces of `s` between occurrences of `sep` (one piece when there is none).
pub open spec fn split(s: Seq<u8>, sep: u8) -> Seq<Seq<u8>> {
    split_from(s, sep, seq![])
}

/// Splits `b[lo..hi]` at each `sep`; the result holds the bounds of the pieces in `b`.
pub fn split_bounds(b: &[u8], lo: usize, hi: usize, sep: u8) -> (r: Vec<(usize, usize)>)
    requires
        lo <= hi <= b@.len(),
    ensures
        r@.len() == split(b@.subrange(lo as int, hi as int), sep).len(),
        forall|k: int|
            0 <= k < r@.len() ==> lo <= (#[trigger] r@[k]).0 <= r@[k].1 <= hi && b@.subrange(r@[k].0 as int, r@[k].1 as int)
                == split(b@.subrange(lo as int, hi as int), sep)[k],
{
    let mut r: Vec<(usize, usize)> = Vec::new();
    let ghost mut pieces: Seq<Seq<u8>> = seq![];
    let mut start = lo;
    let mut i = lo;
    assert(b@.subrange(lo as int, hi as int) == b@.subrange(i as int, hi as int));
    assert(b@.subrange(start as int, i as int) =~= Seq::<u8>::empty());
    while i < hi
        invariant
            lo <= start <= i <= hi <= b@.len(),
            r@.len() == pieces.len(),
            forall|k: int|
                0 <= k < r@.len() ==> lo <= (#[trigger] r@[k]).0 <= r@[k].1 <= start && b@.subrange(r@[k].0 as int, r@[k].1 as int)
                    == pieces[k],
            split(b@.subrange(lo as int, hi as int), sep) == pieces + split_from(
                b@.subrange(i as int, hi as int),
                sep,
                b@.subrange(start as int, i as int),
            ),
        decreases hi - i,
    {
        let ghost rest = b@.subrange(i as int, hi as int);
        let ghost cur = b@.subrange(start as int, i as int);
        assert(rest.drop_first() =~= b@.subrange(i + 1, hi as int));
        assert(rest[0] == b@[i as int]);
        if b[i] == sep {
            proof {
                assert(pieces + split_from(rest, sep, cur) =~= pieces.push(cur) + split_from(
                    b@.subrange(i + 1, hi as int),
                    sep,
                    seq![],
                ));
                assert(b@.subrange(i + 1, i + 1) =~= Seq::<u8>::empty());
                pieces = pieces.push(cur);
            }
            r.push((start, i));
            start = i + 1;
        } else {
            assert(cur.push(b@[i as int]) =~= b@.subrange(start as int, i + 1));
        }
        i = i + 1;
    }
    proof {
        let cur = b@.subrange(start as int, i as int);
        assert(b@.subrange(i as int, hi as int) =~= Seq::<u8>::empty());
        assert(pieces + seq![cur] =~= pieces.push(cur));
        pieces = pieces.push(cur);
    }
    r.push((start, i));
    r
}

pub open spec fn all_digits(s: Seq<u8>) -> bool {
    forall|i: int| 0 <= i < s.len() ==> is_digit(#[trigger] s[i])
}

/// The number written in decimal by the digits `s`.
pub open spec fn decimal(s: Seq<u8>) -> int
    decreases s.len(),
{
    if s.len() == 0 {
        0
    } else {
        decimal(s.drop_last()) * 10 + (s.last() - 48)
    }
}

proof fn lemma_decimal_prefix(s: Seq<u8>, k: int)
    requires
        all_digits(s),
        0 <= k <= s.len(),
    ensures
        0 <= decimal(s.subrange(0, k)) <= decimal(s),
    decreases s.len(),
{
    if k < s.len() {
        lemma_decimal_prefix(s.drop_last(), k);
        assert(s.drop_last().subrange(0, k) =~= s.subrange(0, k));
    } else {
        assert(s.subrange(0, k) =~= s);
        lemma_decimal_nonneg(s);
    }
}

pub proof fn lemma_decimal_nonneg(s: Seq<u8>)
    requires
        all_digits(s),
    ensures
        decimal(s) >= 0,
    decreases s.len(),
{
    if s.len() > 0 {
        lemma_decimal_nonneg(s.drop_last());
    }
}

/// Reads the unsigned decimal number `b[lo..hi]`: `None` unless it is one or more digits
/// whose value fits in a `u64`.
pub fn parse_decimal(b: &[u8], lo: usize, hi: usize) -> (r: Option<u64>)
    requires
        lo <= hi <= b@.len(),
    ensures
        r is Some <==> {
            let t = b@.subrange(lo as int, hi as int);
            lo < hi && all_digits(t) && decimal(t) <= u64::MAX
        },
        r matches Some(v) ==> v == decimal(b@.subrange(lo as int, hi as int)),
{
    let ghost t = b@.subrange(lo as int, hi as int);
    if lo == hi {
        return None;
    }
    let mut v: u64 = 0;
    let mut i = lo;
    while i < hi
        invariant
            lo <= i <= hi <= b@.len(),
            t == b@.subrange(lo as int, hi as int),
            all_digits(b@.subrange(lo as int, i as int)),
            v == decimal(b@.subrange(lo as int, i as int)),
        decreases hi - i,
    {
        let c = b[i];
        assert(b@.subrange(lo as int, i + 1).drop_last() =~= b@.subrange(lo as int, i as int));
        if c < 48 || c > 57 {
            assert(t[i - lo] == c);
            return None;
        }
        assert(all_digits(b@.subrange(lo as int, i + 1)));
        let ghost next = decimal(b@.subrange(lo as int, i + 1));
        match v.checked_mul(10) {
            None => {
                proof {
                    let mut j = i + 1;
                    assert(forall|j: int| lo <= j < hi ==> b@[j] == t[j - lo]);
                    if all_digits(t) {
                        assert(t.subrange(0, i + 1 - lo) =~= b@.subrange(lo as int, i + 1));
                        lemma_decimal_prefix(t, i + 1 - lo);
                    }
                }
                return None;
            },
            Some(m) => match m.checked_add((c - 48) as u64) {
                None => {
                    proof {
                        if all_digits(t) {
                            assert(t.subrange(0, i + 1 - lo) =~= b@.subrange(lo as int, i + 1));
                            lemma_decimal_prefix(t, i + 1 - lo);
                        }
                    }
                    return None;
                },
                Some(n) => {
                    v = n;
                },
            },
        }
        i = i + 1;
    }
    assert(b@.subrange(lo as int, i as int) == t);
    Some(v)
}


/// The groups of lines of `ls` between empty lines, the first group prefixed by `cur`.
pub open spec fn blocks_from(ls: Seq<Seq<u8>>, cur: Seq<Seq<u8>>) -> Seq<Seq<Seq<u8>>>
    decreases ls.len(),
{
    if ls.len() == 0 {
        seq![cur]
    } else if ls[0].len() == 0 {
        seq![cur] + blocks_from(ls.drop_first(), seq![])
    } else {
        blocks_from(ls.drop_first(), cur.push(ls[0]))
    }
}

pub proof fn lemma_blocks_nonempty(ls: Seq<Seq<u8>>, cur: Seq<Seq<u8>>)
    ensures
        blocks_from(ls, cur).len() >= 1,
    decreases ls.len(),
{
    if ls.len() > 0 {
        if ls[0].len() == 0 {
            lemma_blocks_nonempty(ls.drop_first(), seq![]);
        } else {
            lemma_blocks_nonempty(ls.drop_first(), cur.push(ls[0]));
        }
    }
}

/// The groups of lines of the trimmed text `b`, separated by empty lines.
pub open spec fn blocks(b: Seq<u8>) -> Seq<Seq<Seq<u8>>> {
    blocks_from(lines(b), seq![])
}

/// Bounds in `b` of the lines of each group of `blocks(b)`.
pub fn block_bounds(b: &[u8]) -> (r: Vec<Vec<(usize, usize)>>)
    ensures
        r@.len() == blocks(b@).len(),
        forall|k: int|
            0 <= k < r@.len() ==> (#[trigger] r@[k])@.len() == blocks(b@)[k].len() && forall|j: int|
                0 <= j < r@[k]@.len() ==> (#[trigger] r@[k]@[j]).0 <= r@[k]@[j].1 <= b@.len() && b@.subrange(
                    r@[k]@[j].0 as int,
                    r@[k]@[j].1 as int,
                ) == blocks(b@)[k][j],
{
    let ls = line_bounds(b);
    let ghost all = lines(b@);
    let ghost mut done: Seq<Seq<Seq<u8>>> = seq![];
    let ghost mut cur: Seq<Seq<u8>> = seq![];
    let mut out: Vec<Vec<(usize, usize)>> = Vec::new();
    let mut group: Vec<(usize, usize)> = Vec::new();
    let mut i: usize = 0;
    assert(all.skip(0) =~= all);
    while i < ls.len()
        invariant
            i <= ls@.len() == all.len(),
            all == lines(b@),
            forall|j: int|
                0 <= j < ls@.len() ==> (#[trigger] ls@[j]).0 <= ls@[j].1 <= b@.len() && b@.subrange(ls@[j].0 as int, ls@[j].1 as int)
                    == all[j],
            blocks_from(all, seq![]) == done + blocks_from(all.skip(i as int), cur),
            group@.len() == cur.len(),
            forall|j: int|
                0 <= j < group@.len() ==> (#[trigger] group@[j]).0 <= group@[j].1 <= b@.len() && b@.subrange(
                    group@[j].0 as int,
                    group@[j].1 as int,
                ) == cur[j],
            out@.len() == done.len(),
            forall|k: int|
                0 <= k < out@.len() ==> (#[trigger] out@[k])@.len() == done[k].len() && forall|j: int|
                    0 <= j < out@[k]@.len() ==> (#[trigger] out@[k]@[j]).0 <= out@[k]@[j].1 <= b@.len() && b@.subrange(
                        out@[k]@[j].0 as int,
                        out@[k]@[j].1 as int,
                    ) == done[k][j],
        decreases ls@.len() - i,
    {
        let (lo, hi) = ls[i];
        let ghost rest = all.skip(i as int);
        assert(rest[0] == all[i as int]);
        assert(rest.drop_first() =~= all.skip(i + 1));
        if lo == hi {
            proof {
                assert(all[i as int].len() == 0);
                assert(done + blocks_from(rest, cur) =~= done.push(cur) + blocks_from(all.skip(i + 1), seq![]));
                done = done.push(cur);
                cur = seq![];
            }
            out.push(group);
            group = Vec::new();
        } else {
            proof {
                cur = cur.push(all[i as int]);
            }
            group.push((lo, hi));
        }
        i = i + 1;
    }
    assert(all.skip(i as int) =~= Seq::<Seq<u8>>::empty());
    assert(done + seq![cur] =~= done.push(cur));
    proof {
        done = done.push(cur);
    }
    out.push(group);
    out
}

/// What follows the single colon of a line.
pub open spec fn after_colon(l: Seq<u8>) -> Option<Seq<u8>> {
    let ps = split(l, 58);
    if ps.len() == 2 {
        Some(ps[1])
    } else {
        None
    }
}

/// The pieces of `ps` that are not empty.
pub open spec fn nonempty(ps: Seq<Seq<u8>>) -> Seq<Seq<u8>>
    decreases ps.len(),
{
    if ps.len() == 0 {
        seq![]
    } else if ps.last().len() == 0 {
        nonempty(ps.drop_last())
    } else {
        nonempty(ps.drop_last()).push(ps.last())
    }
}

/// The space-separated fields of `s`.
pub open spec fn fields(s: Seq<u8>) -> Seq<Seq<u8>> {
    nonempty(split(s, 32))
}

/// The value of a field written as a decimal number that fits in a `u64`.
pub open spec fn number(f: Seq<u8>) -> Option<u64> {
    if f.len() > 0 && all_digits(f) && decimal(f) <= u64::MAX {
        Some(decimal(f) as u64)
    } else {
        None
    }
}

/// The numbers written in the fields `fs`; `None` when one of them is not a number.
pub open spec fn numbers_of(fs: Seq<Seq<u8>>) -> Option<Seq<u64>>
    decreases fs.len(),
{
    if fs.len() == 0 {
        Some(seq![])
    } else {
        match (numbers_of(fs.drop_last()), number(fs.last())) {
            (Some(ns), Some(n)) => Some(ns.push(n)),
            _ => None,
        }
    }
}

/// The space-separated numbers of `s`.
pub open spec fn numbers(s: Seq<u8>) -> Option<Seq<u64>> {
    numbers_of(fields(s))
}

/// Bounds in `b` of the space-separated fields of `b[lo..hi]`.
pub fn field_bounds(b: &[u8], lo: usize, hi: usize) -> (r: Vec<(usize, usize)>)
    requires
        lo <= hi <= b@.len(),
    ensures
        r@.len() == fields(b@.subrange(lo as int, hi as int)).len(),
        forall|k: int|
            0 <= k < r@.len() ==> lo <= (#[trigger] r@[k]).0 <= r@[k].1 <= hi && b@.subrange(r@[k].0 as int, r@[k].1 as int)
                == fields(b@.subrange(lo as int, hi as int))[k],
{
    let parts = split_bounds(b, lo, hi, 32);
    let ghost ps = split(b@.subrange(lo as int, hi as int), 32);
    let mut r: Vec<(usize, usize)> = Vec::new();
    let mut k: usize = 0;
    while k < parts.len()
        invariant
            k <= parts@.len() == ps.len(),
            lo <= hi <= b@.len(),
            ps == split(b@.subrange(lo as int, hi as int), 32),
            forall|j: int|
                0 <= j < parts@.len() ==> lo <= (#[trigger] parts@[j]).0 <= parts@[j].1 <= hi && b@.subrange(
                    parts@[j].0 as int,
                    parts@[j].1 as int,
                ) == ps[j],
            r@.len() == nonempty(ps.take(k as int)).len(),
            forall|j: int|
                0 <= j < r@.len() ==> lo <= (#[trigger] r@[j]).0 <= r@[j].1 <= hi && b@.subrange(r@[j].0 as int, r@[j].1 as int)
                    == nonempty(ps.take(k as int))[j],
        decreases parts@.len() - k,
    {
        let (a, z) = parts[k];
        assert(ps.take(k + 1).drop_last() =~= ps.take(k as int));
        assert(ps.take(k + 1).last() == ps[k as int]);
        if a < z {
            r.push((a, z));
        }
        k = k + 1;
    }
    assert(ps.take(k as int) =~= ps);
    r
}

/// Reads the space-separated numbers of `b[lo..hi]`.
pub fn parse_numbers(b: &[u8], lo: usize, hi: usize) -> (r: Option<Vec<u64>>)
    requires
        lo <= hi <= b@.len(),
    ensures
        r is Some <==> numbers(b@.subrange(lo as int, hi as int)) is Some,
        r matches Some(v) ==> v@ == numbers(b@.subrange(lo as int, hi as int))->0,
{
    let fs = field_bounds(b, lo, hi);
    let ghost all = fields(b@.subrange(lo as int, hi as int));
    let mut out: Vec<u64> = Vec::new();
    let mut k: usize = 0;
    while k < fs.len()
        invariant
            k <= fs@.len() == all.len(),
            lo <= hi <= b@.len(),
            all == fields(b@.subrange(lo as int, hi as int)),
            forall|j: int|
                0 <= j < fs@.len() ==> lo <= (#[trigger] fs@[j]).0 <= fs@[j].1 <= hi && b@.subrange(fs@[j].0 as int, fs@[j].1 as int)
                    == all[j],
            numbers_of(all.take(k as int)) == Some(out@),
        decreases fs@.len() - k,
    {
        let (a, z) = fs[k];
        assert(all.take(k + 1).drop_last() =~= all.take(k as int));
        match parse_decimal(b, a, z) {
            None => {
                proof {
                    lemma_numbers_none(all, k as int);
                }
                return None;
            },
            Some(v) => {
                out.push(v);
            },
        }
        k = k + 1;
    }
    assert(all.take(k as int) =~= all);
    Some(out)
}

proof fn lemma_numbers_none(fs: Seq<Seq<u8>>, k: int)
    requires
        0 <= k < fs.len(),
        number(fs[k]) is None,
    ensures
        numbers_of(fs) is None,
    decreases fs.len(),
{
    if k < fs.len() - 1 {
        lemma_numbers_none(fs.drop_last(), k);
    }
}

} // verus!
