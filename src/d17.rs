use vstd::arithmetic::div_mod::lemma_fundamental_div_mod;
use vstd::arithmetic::div_mod::lemma_fundamental_div_mod_converse;
use vstd::prelude::*;
use crate::text::is_digit;
use crate::text::trim;
use crate::text::trim_bounds;

verus! {

/// One of the four headings a crucible can take on the grid.
#[derive(Clone, Copy, PartialEq, Eq, Structural, Debug)]
pub enum Direction {
    North,
    West,
    South,
    East,
}

impl Direction {
    pub open spec fn spec_opposite(self) -> Direction {
        match self {
            Direction::North => Direction::South,
            Direction::West => Direction::East,
            Direction::South => Direction::North,
            Direction::East => Direction::West,
        }
    }

    pub fn opposite(&self) -> (r: Direction)
        ensures
            r == self.spec_opposite(),
    {
        match self {
            Direction::North => Direction::South,
            Direction::West => Direction::East,
            Direction::South => Direction::North,
            Direction::East => Direction::West,
        }
    }

    pub open spec fn code(self) -> int {
        match self {
            Direction::North => 0,
            Direction::West => 1,
            Direction::South => 2,
            Direction::East => 3,
        }
    }

    pub open spec fn from_code(c: int) -> Direction {
        if c == 0 {
            Direction::North
        } else if c == 1 {
            Direction::West
        } else if c == 2 {
            Direction::South
        } else {
            Direction::East
        }
    }
}

/// A rectangular grid of movement costs, stored row after row.
pub struct Grid {
    pub rows: usize,
    pub cols: usize,
    pub costs: Vec<u64>,
}

/// What a grid holds: its dimensions and its costs row after row.
pub struct Tiles {
    pub rows: nat,
    pub cols: nat,
    pub costs: Seq<u64>,
}

impl Tiles {
    pub open spec fn wf(&self) -> bool {
        self.costs.len() == self.rows * self.cols
    }

    pub open spec fn in_bounds(&self, row: int, col: int) -> bool {
        0 <= row < self.rows && 0 <= col < self.cols
    }

    /// Cost of entering the cell at (row, col).
    pub open spec fn cell(&self, row: int, col: int) -> int {
        self.costs[row * self.cols + col] as int
    }
}

impl View for Grid {
    type V = Tiles;

    open spec fn view(&self) -> Tiles {
        Tiles { rows: self.rows as nat, cols: self.cols as nat, costs: self.costs@ }
    }
}

impl Grid {
    pub open spec fn wf(&self) -> bool {
        self@.wf()
    }

    /// Builds a grid from its dimensions and its costs row after row; `None` when the
    /// number of costs is not `rows * cols`.
    pub fn new(rows: usize, cols: usize, costs: Vec<u64>) -> (r: Option<Grid>)
        ensures
            r is Some <==> costs@.len() == rows * cols,
            r matches Some(g) ==> g.wf() && g.rows == rows && g.cols == cols && g.costs@
                == costs@,
    {
        let len = costs.len();
        match rows.checked_mul(cols) {
            Some(n) => {
                if len == n {
                    Some(Grid { rows, cols, costs })
                } else {
                    None
                }
            },
            None => {
                None
            },
        }
    }
}


/// A search state: a cell, the heading the crucible arrived with (none at the origin,
/// before any move) and how many cells it has moved in that heading without turning.
pub struct Node {
    pub row: int,
    pub col: int,
    pub heading: Option<Direction>,
    pub run: int,
}

/// The cell reached from (row, col) after `k` unit steps towards `d`.
pub open spec fn shift(row: int, col: int, d: Direction, k: int) -> (int, int) {
    match d {
        Direction::North => (row - k, col),
        Direction::West => (row, col - k),
        Direction::South => (row + k, col),
        Direction::East => (row, col + k),
    }
}

pub open spec fn start(origin: (int, int)) -> Node {
    Node { row: origin.0, col: origin.1, heading: None, run: 0 }
}

/// Sum of the costs of the `k` cells entered when moving `k` steps towards `d`.
pub open spec fn run_cost(g: Tiles, row: int, col: int, d: Direction, k: nat) -> int
    decreases k,
{
    if k == 0 {
        0
    } else {
        run_cost(g, row, col, d, (k - 1) as nat) + g.cell(shift(row, col, d, k as int).0, shift(row, col, d, k as int).1)
    }
}

/// The move from `a` towards `d`, with its cost, when the rules allow one: no reversal;
/// going straight adds one cell while the run stays within `max_run`; turning commits to
/// `min_run` cells at once; the very first move, from the origin, is a single cell in
/// any heading.
pub open spec fn step(g: Tiles, min_run: int, max_run: int, a: Node, d: Direction) -> Option<(Node, int)> {
    match a.heading {
        None => {
            let p = shift(a.row, a.col, d, 1);
            if g.in_bounds(p.0, p.1) && 1 <= max_run {
                Some((Node { row: p.0, col: p.1, heading: Some(d), run: 1 }, g.cell(p.0, p.1)))
            } else {
                None
            }
        },
        Some(h) => {
            if d == h.spec_opposite() {
                None
            } else if d == h {
                let p = shift(a.row, a.col, d, 1);
                if a.run < max_run && g.in_bounds(p.0, p.1) {
                    Some((Node { row: p.0, col: p.1, heading: Some(d), run: a.run + 1 }, g.cell(p.0, p.1)))
                } else {
                    None
                }
            } else {
                let p = shift(a.row, a.col, d, min_run);
                if min_run <= max_run && g.in_bounds(p.0, p.1) {
                    Some((
                        Node { row: p.0, col: p.1, heading: Some(d), run: min_run },
                        run_cost(g, a.row, a.col, d, min_run as nat),
                    ))
                } else {
                    None
                }
            }
        },
    }
}

/// The cost of the move from `a` to `b`, when there is one.
pub open spec fn edge(g: Tiles, min_run: int, max_run: int, a: Node, b: Node) -> Option<int> {
    match b.heading {
        Some(d) => match step(g, min_run, max_run, a, d) {
            Some(m) => if m.0 == b {
                Some(m.1)
            } else {
                None
            },
            None => None,
        },
        None => None,
    }
}

/// `p` is a sequence of legal moves starting at the origin.
pub open spec fn is_route(g: Tiles, min_run: int, max_run: int, origin: (int, int), p: Seq<Node>) -> bool {
    &&& p.len() >= 1
    &&& p[0] == start(origin)
    &&& forall|k: int| 0 <= k < p.len() - 1 ==> (#[trigger] edge(g, min_run, max_run, p[k], p[k + 1])) is Some
}

pub open spec fn route_cost(g: Tiles, min_run: int, max_run: int, p: Seq<Node>) -> int
    decreases p.len(),
{
    if p.len() <= 1 {
        0
    } else {
        route_cost(g, min_run, max_run, p.drop_last())
            + edge(g, min_run, max_run, p[p.len() - 2], p[p.len() - 1])->0
    }
}

pub open spec fn ends_at(p: Seq<Node>, dest: (int, int)) -> bool {
    p.last().row == dest.0 && p.last().col == dest.1
}

/// Some route from `origin` ends at `dest`.
pub open spec fn reachable(g: Tiles, min_run: int, max_run: int, origin: (int, int), dest: (int, int)) -> bool {
    exists|p: Seq<Node>| is_route(g, min_run, max_run, origin, p) && ends_at(p, dest)
}

/// `c` is the least cost of a route from `origin` to `dest`.
pub open spec fn is_min_cost(
    g: Tiles,
    min_run: int,
    max_run: int,
    origin: (int, int),
    dest: (int, int),
    c: int,
) -> bool {
    &&& exists|p: Seq<Node>|
        is_route(g, min_run, max_run, origin, p) && ends_at(p, dest) && route_cost(g, min_run, max_run, p) == c
    &&& forall|p: Seq<Node>|
        is_route(g, min_run, max_run, origin, p) && ends_at(p, dest) ==> route_cost(g, min_run, max_run, p) >= c
}

/// Number of search states: the origin's, and one per cell, heading and run length.
pub open spec fn slots(g: Tiles, max_run: int) -> int {
    1 + g.rows * g.cols * 4 * (max_run + 1)
}

spec fn placed(g: Tiles, max_run: int, n: Node) -> bool {
    n.heading is Some && g.in_bounds(n.row, n.col) && 0 <= n.run <= max_run
}

spec fn slot_of(g: Tiles, max_run: int, n: Node) -> int {
    match n.heading {
        None => 0,
        Some(d) => 1 + ((n.row * g.cols + n.col) * 4 + d.code()) * (max_run + 1) + n.run,
    }
}

spec fn node_at(g: Tiles, max_run: int, origin: (int, int), i: int) -> Node {
    if i == 0 {
        start(origin)
    } else {
        let q = (i - 1) / (max_run + 1);
        let c = q / 4;
        Node {
            row: c / g.cols as int,
            col: c % g.cols as int,
            heading: Some(Direction::from_code(q % 4)),
            run: (i - 1) % (max_run + 1),
        }
    }
}

proof fn lemma_div_below(x: int, a: int, b: int)
    requires
        0 <= x < a * b,
        b > 0,
    ensures
        0 <= x / b < a,
        0 <= x % b < b,
        x == (x / b) * b + x % b,
{
    lemma_fundamental_div_mod(x, b);
    assert(0 <= x % b < b) by {
        vstd::arithmetic::div_mod::lemma_mod_pos_bound(x, b);
    }
    assert(x / b >= 0) by {
        vstd::arithmetic::div_mod::lemma_div_pos_is_pos(x, b);
    }
    assert((x / b) * b == b * (x / b)) by (nonlinear_arith);
    if x / b >= a {
        assert((x / b) * b >= a * b) by (nonlinear_arith)
            requires
                x / b >= a,
                b > 0,
        ;
    }
}

proof fn lemma_decode(g: Tiles, max_run: int, origin: (int, int), i: int)
    requires
        1 <= i < slots(g, max_run),
        max_run >= 0,
    ensures
        placed(g, max_run, node_at(g, max_run, origin, i)),
        slot_of(g, max_run, node_at(g, max_run, origin, i)) == i,
{
    let r = max_run + 1;
    let k = i - 1;
    let cells: int = (g.rows * g.cols) as int;
    assert(k < (cells * 4) * r) by (nonlinear_arith)
        requires
            k < 1 + g.rows * g.cols * 4 * (max_run + 1) - 1,
            cells == g.rows * g.cols,
            r == max_run + 1,
    ;
    lemma_div_below(k, cells * 4, r);
    let q = k / r;
    lemma_div_below(q, cells, 4);
    let c = q / 4;
    assert(g.cols > 0) by (nonlinear_arith)
        requires
            0 <= c < g.rows * g.cols,
    ;
    lemma_div_below(c, g.rows as int, g.cols as int);
    let n = node_at(g, max_run, origin, i);
    assert(n.row * g.cols + n.col == c) by (nonlinear_arith)
        requires
            n.row == c / g.cols as int,
            n.col == c % g.cols as int,
            c == (c / g.cols as int) * g.cols + c % g.cols as int,
    ;
    assert(Direction::from_code(q % 4).code() == q % 4);
}

proof fn lemma_encode(g: Tiles, max_run: int, origin: (int, int), n: Node)
    requires
        placed(g, max_run, n),
    ensures
        1 <= slot_of(g, max_run, n) < slots(g, max_run),
        node_at(g, max_run, origin, slot_of(g, max_run, n)) == n,
{
    let r = max_run + 1;
    let d = n.heading->0;
    let c = n.row * g.cols + n.col;
    let q = c * 4 + d.code();
    let k = q * r + n.run;
    assert(0 <= c < g.rows * g.cols) by (nonlinear_arith)
        requires
            0 <= n.row < g.rows,
            0 <= n.col < g.cols,
            c == n.row * g.cols + n.col,
    ;
    assert(0 <= k < g.rows * g.cols * 4 * r) by (nonlinear_arith)
        requires
            0 <= c < g.rows * g.cols,
            q == c * 4 + d.code(),
            0 <= d.code() < 4,
            k == q * r + n.run,
            0 <= n.run < r,
    ;
    lemma_fundamental_div_mod_converse(k, r, q, n.run);
    lemma_fundamental_div_mod_converse(q, 4, c, d.code());
    lemma_fundamental_div_mod_converse(c, g.cols as int, n.row, n.col);
    assert(Direction::from_code(d.code()) == d);
}


pub open spec fn at_least_one(m: int) -> int {
    if m < 1 {
        1
    } else {
        m
    }
}

/// The grid and regime are small enough for every cost the search adds up to fit in a
/// `u64`, and for its state table to be indexed by a `usize`.
pub open spec fn fits(g: Tiles, min_run: int, max_run: int) -> bool {
    &&& slots(g, max_run) <= usize::MAX
    &&& forall|i: int|
        0 <= i < g.costs.len() ==> g.costs[i] * (slots(g, max_run) * at_least_one(min_run)) <= u64::MAX
}

spec fn cell_cap(g: Tiles, min_run: int, max_run: int) -> int {
    u64::MAX as int / (slots(g, max_run) * at_least_one(min_run))
}

spec fn step_cap(g: Tiles, min_run: int, max_run: int) -> int {
    cell_cap(g, min_run, max_run) * at_least_one(min_run)
}

proof fn lemma_cell_index(g: Tiles, row: int, col: int)
    requires
        g.wf(),
        g.in_bounds(row, col),
    ensures
        0 <= row * g.cols + col < g.costs.len(),
{
    assert(0 <= row * g.cols + col < g.rows * g.cols) by (nonlinear_arith)
        requires
            0 <= row < g.rows,
            0 <= col < g.cols,
    ;
}

proof fn lemma_caps(g: Tiles, min_run: int, max_run: int)
    requires
        g.wf(),
        fits(g, min_run, max_run),
        max_run >= 0,
    ensures
        forall|row: int, col: int|
            g.in_bounds(row, col) ==> 0 <= #[trigger] g.cell(row, col) <= cell_cap(g, min_run, max_run),
        0 <= cell_cap(g, min_run, max_run) <= step_cap(g, min_run, max_run),
        step_cap(g, min_run, max_run) * slots(g, max_run) <= u64::MAX,
{
    let k = slots(g, max_run) * at_least_one(min_run);
    let m = u64::MAX as int;
    assert(slots(g, max_run) >= 1) by (nonlinear_arith)
        requires
            slots(g, max_run) == 1 + g.rows * g.cols * 4 * (max_run + 1),
            max_run >= 0,
    ;
    assert(k >= 1) by (nonlinear_arith)
        requires
            k == slots(g, max_run) * at_least_one(min_run),
            slots(g, max_run) >= 1,
            at_least_one(min_run) >= 1,
    ;
    lemma_fundamental_div_mod(m, k);
    vstd::arithmetic::div_mod::lemma_mod_pos_bound(m, k);
    vstd::arithmetic::div_mod::lemma_div_pos_is_pos(m, k);
    let cc = m / k;
    assert forall|row: int, col: int| g.in_bounds(row, col) implies 0 <= #[trigger] g.cell(row, col)
        <= cell_cap(g, min_run, max_run) by {
        lemma_cell_index(g, row, col);
        let x = g.cell(row, col);
        assert(x * k <= m);
        if x > cc {
            assert(x * k >= (cc + 1) * k) by (nonlinear_arith)
                requires
                    x > cc,
                    k >= 1,
            ;
            assert((cc + 1) * k == k * cc + k) by (nonlinear_arith);
        }
    }
    assert(cc <= cc * at_least_one(min_run)) by (nonlinear_arith)
        requires
            cc >= 0,
            at_least_one(min_run) >= 1,
    ;
    assert(cc * at_least_one(min_run) * slots(g, max_run) == k * cc) by (nonlinear_arith)
        requires
            k == slots(g, max_run) * at_least_one(min_run),
    ;
}

impl Direction {
    fn from_index(c: usize) -> (d: Direction)
        ensures
            d == Direction::from_code(c as int),
    {
        if c == 0 {
            Direction::North
        } else if c == 1 {
            Direction::West
        } else if c == 2 {
            Direction::South
        } else {
            Direction::East
        }
    }

    fn index(&self) -> (c: usize)
        ensures
            c == self.code(),
    {
        match self {
            Direction::North => 0,
            Direction::West => 1,
            Direction::South => 2,
            Direction::East => 3,
        }
    }
}

impl Grid {
    /// Cost of entering a cell inside the grid.
    pub fn cost(&self, row: usize, col: usize) -> (c: u64)
        requires
            self.wf(),
            self@.in_bounds(row as int, col as int),
        ensures
            c == self@.cell(row as int, col as int),
    {
        let n = self.costs.len();
        proof {
            lemma_cell_index(self@, row as int, col as int);
        }
        self.costs[row * self.cols + col]
    }

    /// The cell one step from (row, col) towards `d`, when it lies inside the grid.
    pub fn single_step(&self, row: usize, col: usize, d: Direction) -> (r: Option<(usize, usize)>)
        requires
            self@.in_bounds(row as int, col as int),
        ensures
            r is Some <==> self@.in_bounds(shift(row as int, col as int, d, 1).0, shift(row as int, col as int, d, 1).1),
            r matches Some(p) ==> (p.0 as int, p.1 as int) == shift(row as int, col as int, d, 1),
    {
        match d {
            Direction::North => if row == 0 {
                None
            } else {
                Some((row - 1, col))
            },
            Direction::West => if col == 0 {
                None
            } else {
                Some((row, col - 1))
            },
            Direction::South => if row + 1 < self.rows {
                Some((row + 1, col))
            } else {
                None
            },
            Direction::East => if col + 1 < self.cols {
                Some((row, col + 1))
            } else {
                None
            },
        }
    }
}

fn slot(g: &Grid, max_run: usize, row: usize, col: usize, d: Direction, run: usize) -> (i: usize)
    requires
        placed(g@, max_run as int, Node { row: row as int, col: col as int, heading: Some(d), run: run as int }),
        slots(g@, max_run as int) <= usize::MAX,
    ensures
        i as int == slot_of(g@, max_run as int, Node { row: row as int, col: col as int, heading: Some(d), run: run as int }),
{
    let ghost n = Node { row: row as int, col: col as int, heading: Some(d), run: run as int };
    proof {
        lemma_encode(g@, max_run as int, (0, 0), n);
        assert(0 <= row * g.cols <= row * g.cols + col < g.rows * g.cols) by (nonlinear_arith)
            requires
                0 <= row < g.rows,
                0 <= col < g.cols,
        ;
        assert(g.rows * g.cols * 4 <= g.rows * g.cols * 4 * (max_run + 1)) by (nonlinear_arith)
            requires
                g.rows * g.cols >= 0,
                max_run >= 0,
        ;
        assert(max_run + 1 <= g.rows * g.cols * 4 * (max_run + 1)) by (nonlinear_arith)
            requires
                g.rows * g.cols >= 1,
                max_run >= 0,
        ;
        assert(g.rows * g.cols <= g.rows * g.cols * 4 * (max_run + 1)) by (nonlinear_arith)
            requires
                g.rows * g.cols >= 0,
                max_run >= 0,
        ;
        assert((row * g.cols + col) * 4 + d.code() < g.rows * g.cols * 4) by (nonlinear_arith)
            requires
                row * g.cols + col < g.rows * g.cols,
                0 <= d.code() < 4,
        ;
        assert(((row * g.cols + col) * 4 + d.code()) * (max_run + 1) <= g.rows * g.cols * 4 * (max_run + 1)) by (nonlinear_arith)
            requires
                (row * g.cols + col) * 4 + d.code() < g.rows * g.cols * 4,
                max_run >= 0,
        ;
    }
    let c = row * g.cols + col;
    let q = c * 4 + d.index();
    q * (max_run + 1) + run + 1
}

/// The move from the state in slot `u` towards `d`: the slot it leads to and its cost.
fn transition(g: &Grid, min_run: usize, max_run: usize, origin: (usize, usize), u: usize, d: Direction) -> (r: Option<(usize, u64)>)
    requires
        g.wf(),
        fits(g@, min_run as int, max_run as int),
        g@.in_bounds(origin.0 as int, origin.1 as int),
        u < slots(g@, max_run as int),
    ensures
        r is Some <==> step(g@, min_run as int, max_run as int, node_at(g@, max_run as int, (origin.0 as int, origin.1 as int), u as int), d) is Some,
        r matches Some(t) ==> {
            let m = step(g@, min_run as int, max_run as int, node_at(g@, max_run as int, (origin.0 as int, origin.1 as int), u as int), d)->0;
            &&& 1 <= t.0 < slots(g@, max_run as int)
            &&& t.0 as int == slot_of(g@, max_run as int, m.0)
            &&& node_at(g@, max_run as int, (origin.0 as int, origin.1 as int), t.0 as int) == m.0
            &&& t.1 as int == m.1
            &&& t.1 <= step_cap(g@, min_run as int, max_run as int)
        },
{
    let ghost o = (origin.0 as int, origin.1 as int);
    let ghost gg = g@;
    proof {
        lemma_caps(gg, min_run as int, max_run as int);
    }
    if u == 0 {
        match g.single_step(origin.0, origin.1, d) {
            None => None,
            Some((row, col)) => {
                if max_run < 1 {
                    return None;
                }
                let ghost v = Node { row: row as int, col: col as int, heading: Some(d), run: 1 };
                proof {
                    lemma_encode(gg, max_run as int, o, v);
                }
                Some((slot(g, max_run, row, col, d, 1), g.cost(row, col)))
            },
        }
    } else {
        proof {
            assert(max_run + 1 <= g.rows * g.cols * 4 * (max_run + 1)) by (nonlinear_arith)
                requires
                    g.rows * g.cols * 4 * (max_run + 1) >= 1,
                    max_run >= 0,
            ;
        }
        let k = u - 1;
        let run = k % (max_run + 1);
        let q = k / (max_run + 1);
        let h = Direction::from_index(q % 4);
        let c = q / 4;
        let row = c / g.cols;
        let col = c % g.cols;
        let ghost a = node_at(gg, max_run as int, o, u as int);
        proof {
            lemma_decode(gg, max_run as int, o, u as int);
            assert(a == Node { row: row as int, col: col as int, heading: Some(h), run: run as int });
        }
        if d == h.opposite() {
            None
        } else if d == h {
            if run >= max_run {
                return None;
            }
            match g.single_step(row, col, d) {
                None => None,
                Some((r2, c2)) => {
                    let ghost v = Node { row: r2 as int, col: c2 as int, heading: Some(d), run: run + 1 };
                    proof {
                        lemma_encode(gg, max_run as int, o, v);
                    }
                    Some((slot(g, max_run, r2, c2, d, run + 1), g.cost(r2, c2)))
                },
            }
        } else {
            if min_run > max_run {
                return None;
            }
            let mut acc: u64 = 0;
            let mut i: usize = 0;
            let mut r2 = row;
            let mut c2 = col;
            let ghost cc = cell_cap(gg, min_run as int, max_run as int);
            while i < min_run
                invariant
                    g.wf(),
                    gg == g@,
                    fits(gg, min_run as int, max_run as int),
                    0 <= cc <= step_cap(gg, min_run as int, max_run as int),
                    step_cap(gg, min_run as int, max_run as int) == cc * at_least_one(min_run as int),
                    step_cap(gg, min_run as int, max_run as int) * slots(gg, max_run as int) <= u64::MAX,
                    slots(gg, max_run as int) >= 1,
                    forall|row: int, col: int|
                        gg.in_bounds(row, col) ==> 0 <= #[trigger] gg.cell(row, col) <= cc,
                    i <= min_run,
                    min_run <= max_run,
                    d != h,
                    d != h.spec_opposite(),
                    o == (origin.0 as int, origin.1 as int),
                    a == node_at(gg, max_run as int, o, u as int),
                    a == (Node { row: row as int, col: col as int, heading: Some(h), run: run as int }),
                    gg.in_bounds(r2 as int, c2 as int),
                    (r2 as int, c2 as int) == shift(row as int, col as int, d, i as int),
                    acc as int == run_cost(gg, row as int, col as int, d, i as nat),
                    acc <= i * cc,
                decreases min_run - i,
            {
                match g.single_step(r2, c2, d) {
                    None => {
                        assert(!gg.in_bounds(shift(row as int, col as int, d, min_run as int).0, shift(row as int, col as int, d, min_run as int).1));
                        assert(step(gg, min_run as int, max_run as int, a, d) is None);
                        return None;
                    },
                    Some((r3, c3)) => {
                        let w = g.cost(r3, c3);
                        proof {
                            assert((i + 1) * cc == i * cc + cc) by (nonlinear_arith);
                            assert((i + 1) * cc <= min_run * cc) by (nonlinear_arith)
                                requires
                                    i + 1 <= min_run,
                                    cc >= 0,
                            ;
                            assert(min_run * cc <= at_least_one(min_run as int) * cc) by (nonlinear_arith)
                                requires
                                    min_run <= at_least_one(min_run as int),
                                    cc >= 0,
                            ;
                            assert(step_cap(gg, min_run as int, max_run as int) <= u64::MAX) by (nonlinear_arith)
                                requires
                                    step_cap(gg, min_run as int, max_run as int) * slots(gg, max_run as int) <= u64::MAX,
                                    slots(gg, max_run as int) >= 1,
                                    step_cap(gg, min_run as int, max_run as int) >= 0,
                            ;
                            assert(acc + w <= u64::MAX) by (nonlinear_arith)
                                requires
                                    acc <= i * cc,
                                    w <= cc,
                                    (i + 1) * cc == i * cc + cc,
                                    (i + 1) * cc <= min_run * cc,
                                    min_run * cc <= at_least_one(min_run as int) * cc,
                                    step_cap(gg, min_run as int, max_run as int) == cc * at_least_one(min_run as int),
                                    step_cap(gg, min_run as int, max_run as int) <= u64::MAX,
                            ;
                        }
                        acc = acc + w;
                        i = i + 1;
                        r2 = r3;
                        c2 = c3;
                    },
                }
            }
            proof {
                assert(acc <= step_cap(gg, min_run as int, max_run as int)) by (nonlinear_arith)
                    requires
                        acc <= min_run * cc,
                        cc >= 0,
                        min_run <= at_least_one(min_run as int),
                        step_cap(gg, min_run as int, max_run as int) == cc * at_least_one(min_run as int),
                ;
            }
            let ghost v = Node { row: r2 as int, col: c2 as int, heading: Some(d), run: min_run as int };
            proof {
                lemma_encode(gg, max_run as int, o, v);
            }
            Some((slot(g, max_run, r2, c2, d, min_run), acc))
        }
    }
}


/// Why a search gives no cost.
#[derive(Clone, Copy, PartialEq, Eq, Structural, Debug)]
pub enum SearchError {
    /// The grid text is not a rectangle of decimal digits.
    InvalidGrid,
    /// The grid is too large for the search's state table or its cost sums.
    TooLarge,
    OriginOutOfBounds,
    DestinationOutOfBounds,
    NotReachable,
}

spec fn open_count(s: Seq<bool>) -> nat
    decreases s.len(),
{
    if s.len() == 0 {
        0
    } else {
        open_count(s.drop_last()) + if s.last() {
            0nat
        } else {
            1nat
        }
    }
}

proof fn lemma_open_count_bound(s: Seq<bool>)
    ensures
        open_count(s) <= s.len(),
    decreases s.len(),
{
    if s.len() > 0 {
        lemma_open_count_bound(s.drop_last());
    }
}

proof fn lemma_open_count_close(s: Seq<bool>, i: int)
    requires
        0 <= i < s.len(),
        !s[i],
    ensures
        open_count(s.update(i, true)) + 1 == open_count(s),
    decreases s.len(),
{
    if i == s.len() - 1 {
        assert(s.update(i, true).drop_last() =~= s.drop_last());
    } else {
        assert(s.update(i, true).drop_last() =~= s.drop_last().update(i, true));
        lemma_open_count_close(s.drop_last(), i);
    }
}

/// Every recorded cost is the cost of some route to its state.
spec fn witnessed(g: Tiles, mn: int, mx: int, o: (int, int), dist: Seq<Option<u64>>) -> bool {
    forall|i: int|
        0 <= i < dist.len() && (#[trigger] dist[i]) is Some ==> exists|p: Seq<Node>|
            is_route(g, mn, mx, o, p) && p.last() == node_at(g, mx, o, i) && route_cost(g, mn, mx, p)
                == dist[i]->0
}

/// Every move out of a settled state reaches a state whose recorded cost is at most the
/// settled cost plus the move's cost.
spec fn relaxed_from(g: Tiles, mn: int, mx: int, o: (int, int), dist: Seq<Option<u64>>, i: int, d: Direction) -> bool {
    let m = step(g, mn, mx, node_at(g, mx, o, i), d);
    m is Some ==> {
        let t = m->0;
        &&& dist[slot_of(g, mx, t.0)] is Some
        &&& dist[slot_of(g, mx, t.0)]->0 <= dist[i]->0 + t.1
    }
}

proof fn lemma_extend_route(g: Tiles, mn: int, mx: int, o: (int, int), p: Seq<Node>, b: Node, w: int)
    requires
        is_route(g, mn, mx, o, p),
        edge(g, mn, mx, p.last(), b) == Some(w),
    ensures
        is_route(g, mn, mx, o, p.push(b)),
        route_cost(g, mn, mx, p.push(b)) == route_cost(g, mn, mx, p) + w,
        p.push(b).last() == b,
{
    let q = p.push(b);
    assert(q.drop_last() =~= p);
    assert forall|k: int| 0 <= k < q.len() - 1 implies (#[trigger] edge(g, mn, mx, q[k], q[k + 1])) is Some by {
        if k < p.len() - 1 {
            assert(q[k] == p[k] && q[k + 1] == p[k + 1]);
        }
    }
}

proof fn lemma_step_placed(g: Tiles, mn: int, mx: int, a: Node, d: Direction)
    requires
        step(g, mn, mx, a, d) is Some,
        a.run >= 0,
        mn >= 0,
    ensures
        placed(g, mx, (step(g, mn, mx, a, d)->0).0),
        (step(g, mn, mx, a, d)->0).0.heading == Some(d),
{
}

/// Once no open state has a cost, every route is at least as expensive as the cost
/// recorded for its last state.
proof fn lemma_route_bound(
    g: Tiles,
    mn: int,
    mx: int,
    o: (int, int),
    dist: Seq<Option<u64>>,
    done: Seq<bool>,
    p: Seq<Node>,
)
    requires
        is_route(g, mn, mx, o, p),
        mn >= 0,
        mx >= 0,
        dist.len() == done.len() == slots(g, mx),
        dist[0] == Some(0u64),
        forall|i: int| 0 <= i < dist.len() && (#[trigger] dist[i]) is Some ==> done[i],
        forall|i: int, d: Direction|
            0 <= i < done.len() && done[i] ==> #[trigger] relaxed_from(g, mn, mx, o, dist, i, d),
    ensures
        p.last() == start(o) || placed(g, mx, p.last()),
        0 <= slot_of(g, mx, p.last()) < slots(g, mx),
        node_at(g, mx, o, slot_of(g, mx, p.last())) == p.last(),
        dist[slot_of(g, mx, p.last())] is Some,
        dist[slot_of(g, mx, p.last())]->0 <= route_cost(g, mn, mx, p),
    decreases p.len(),
{
    if p.len() == 1 {
        assert(slots(g, mx) >= 1) by (nonlinear_arith)
            requires
                slots(g, mx) == 1 + g.rows * g.cols * 4 * (mx + 1),
                mx >= 0,
        ;
    } else {
        let q = p.drop_last();
        assert forall|k: int| 0 <= k < q.len() - 1 implies (#[trigger] edge(g, mn, mx, q[k], q[k + 1])) is Some by {
            assert(edge(g, mn, mx, p[k], p[k + 1]) is Some);
        }
        lemma_route_bound(g, mn, mx, o, dist, done, q);
        let a = q.last();
        let b = p.last();
        let k = p.len() - 2;
        assert(edge(g, mn, mx, p[k], p[k + 1]) is Some);
        assert(p[k] == a && p[k + 1] == b);
        let d = b.heading->0;
        let i = slot_of(g, mx, a);
        assert(done[i]);
        assert(relaxed_from(g, mn, mx, o, dist, i, d));
        lemma_step_placed(g, mn, mx, a, d);
        lemma_encode(g, mx, o, b);
    }
}


/// Row and column of the state in slot `i`.
fn locate(g: &Grid, max_run: usize, origin: (usize, usize), i: usize) -> (r: (usize, usize))
    requires
        i < slots(g@, max_run as int),
        slots(g@, max_run as int) <= usize::MAX,
    ensures
        r.0 as int == node_at(g@, max_run as int, (origin.0 as int, origin.1 as int), i as int).row,
        r.1 as int == node_at(g@, max_run as int, (origin.0 as int, origin.1 as int), i as int).col,
{
    if i == 0 {
        origin
    } else {
        proof {
            lemma_decode(g@, max_run as int, (origin.0 as int, origin.1 as int), i as int);
            assert(max_run + 1 <= g.rows * g.cols * 4 * (max_run + 1)) by (nonlinear_arith)
                requires
                    g.rows * g.cols * 4 * (max_run + 1) >= 1,
                    max_run >= 0,
            ;
        }
        let c = (i - 1) / (max_run + 1) / 4;
        (c / g.cols, c % g.cols)
    }
}

/// Least total cost of a route from `origin` to `dest` on `g`, where a route never
/// reverses, runs straight for at most `max_run` cells, and turns by moving `min_run`
/// cells at once (its first move from the origin excepted).
pub fn search(g: &Grid, min_run: usize, max_run: usize, origin: (usize, usize), dest: (usize, usize)) -> (r: Result<
    u64,
    SearchError,
>)
    requires
        g.wf(),
        fits(g@, min_run as int, max_run as int),
    ensures
        (r == Err::<u64, SearchError>(SearchError::OriginOutOfBounds)) <==> !g@.in_bounds(origin.0 as int, origin.1 as int),
        (r == Err::<u64, SearchError>(SearchError::DestinationOutOfBounds)) <==> g@.in_bounds(origin.0 as int, origin.1 as int)
            && !g@.in_bounds(dest.0 as int, dest.1 as int),
        (r == Err::<u64, SearchError>(SearchError::NotReachable)) <==> g@.in_bounds(origin.0 as int, origin.1 as int)
            && g@.in_bounds(dest.0 as int, dest.1 as int) && !reachable(
            g@,
            min_run as int,
            max_run as int,
            (origin.0 as int, origin.1 as int),
            (dest.0 as int, dest.1 as int),
        ),
        r is Ok || r == Err::<u64, SearchError>(SearchError::OriginOutOfBounds) || r == Err::<u64, SearchError>(
            SearchError::DestinationOutOfBounds,
        ) || r == Err::<u64, SearchError>(SearchError::NotReachable),
        r matches Ok(c) ==> is_min_cost(
            g@,
            min_run as int,
            max_run as int,
            (origin.0 as int, origin.1 as int),
            (dest.0 as int, dest.1 as int),
            c as int,
        ),
{
    if !(origin.0 < g.rows && origin.1 < g.cols) {
        return Err(SearchError::OriginOutOfBounds);
    }
    if !(dest.0 < g.rows && dest.1 < g.cols) {
        return Err(SearchError::DestinationOutOfBounds);
    }
    proof {
        assert(g.rows * g.cols >= 1) by (nonlinear_arith)
            requires
                g.rows >= 1,
                g.cols >= 1,
        ;
    }
    let ghost gg = g@;
    let ghost mn = min_run as int;
    let ghost mx = max_run as int;
    let ghost o = (origin.0 as int, origin.1 as int);
    let ghost dst = (dest.0 as int, dest.1 as int);
    let ghost cap = step_cap(gg, mn, mx);
    proof {
        lemma_caps(gg, mn, mx);
        assert(0 <= g.rows * g.cols <= g.rows * g.cols * 4 <= g.rows * g.cols * 4 * (max_run + 1)) by (nonlinear_arith)
            requires
                max_run >= 0,
        ;
        assert(max_run + 1 <= g.rows * g.cols * 4 * (max_run + 1)) by (nonlinear_arith)
            requires
                g.rows * g.cols >= 1,
                max_run >= 0,
        ;
    }
    let n = 1 + g.rows * g.cols * 4 * (max_run + 1);
    let mut dist: Vec<Option<u64>> = Vec::new();
    let mut done: Vec<bool> = Vec::new();
    let mut i: usize = 0;
    while i < n
        invariant
            i <= n,
            dist@.len() == i,
            done@.len() == i,
            forall|j: int| 0 <= j < i ==> (#[trigger] dist@[j]) is None,
            forall|j: int| 0 <= j < i ==> !(#[trigger] done@[j]),
        decreases n - i,
    {
        let ghost d0 = dist@;
        let ghost f0 = done@;
        dist.push(None);
        done.push(false);
        assert(dist@ == d0.push(None));
        assert(done@ == f0.push(false));
        i = i + 1;
    }
    dist.set(0, Some(0));
    proof {
        assert(open_count(done@) == n) by {
            lemma_open_count_bound(done@);
            assert forall|j: int| 0 <= j < n implies !done@[j] by {}
            lemma_all_open(done@);
        }
        assert(witnessed(gg, mn, mx, o, dist@)) by {
            assert forall|j: int| 0 <= j < dist@.len() && (#[trigger] dist@[j]) is Some implies exists|p: Seq<Node>|
                is_route(gg, mn, mx, o, p) && p.last() == node_at(gg, mx, o, j) && route_cost(gg, mn, mx, p)
                    == dist@[j]->0 by {
                assert(j == 0);
                let p = seq![start(o)];
                assert(is_route(gg, mn, mx, o, p));
                assert(p.last() == node_at(gg, mx, o, j));
                assert(route_cost(gg, mn, mx, p) == 0);
            }
        }
    }
    loop
        invariant
            g.wf(),
            gg == g@,
            fits(gg, mn, mx),
            mn == min_run,
            mx == max_run,
            o == (origin.0 as int, origin.1 as int),
            gg.in_bounds(o.0, o.1),
            n == slots(gg, mx),
            cap == step_cap(gg, mn, mx),
            cap >= 0,
            cap * n <= u64::MAX,
            dist@.len() == n,
            done@.len() == n,
            dist@[0] == Some(0u64),
            open_count(done@) <= n,
            forall|j: int| 0 <= j < n && #[trigger] done@[j] ==> dist@[j] is Some,
            forall|a: int, b: int|
                0 <= a < n && 0 <= b < n && #[trigger] done@[a] && !#[trigger] done@[b] && dist@[b] is Some
                    ==> dist@[a]->0 <= dist@[b]->0,
            forall|j: int, d: Direction| 0 <= j < n && done@[j] ==> #[trigger] relaxed_from(gg, mn, mx, o, dist@, j, d),
            witnessed(gg, mn, mx, o, dist@),
            forall|j: int| 0 <= j < n && (#[trigger] dist@[j]) is Some ==> dist@[j]->0 <= (n - open_count(done@)) * cap,
        ensures
            dist@.len() == n,
            done@.len() == n,
            dist@[0] == Some(0u64),
            forall|j: int| 0 <= j < n && (#[trigger] dist@[j]) is Some ==> done@[j],
            forall|j: int, d: Direction| 0 <= j < n && done@[j] ==> #[trigger] relaxed_from(gg, mn, mx, o, dist@, j, d),
            witnessed(gg, mn, mx, o, dist@),
        decreases open_count(done@),
    {
        let mut best: Option<usize> = None;
        let mut j: usize = 0;
        while j < n
            invariant
                j <= n,
                dist@.len() == n,
                done@.len() == n,
                best matches Some(b) ==> b < j && !done@[b as int] && dist@[b as int] is Some,
                best matches Some(b) ==> forall|k: int|
                    0 <= k < j && !done@[k] && #[trigger] dist@[k] is Some ==> dist@[b as int]->0 <= dist@[k]->0,
                best is None ==> forall|k: int| 0 <= k < j ==> done@[k] || (#[trigger] dist@[k]) is None,
            decreases n - j,
        {
            if !done[j] {
                match dist[j] {
                    Some(dj) => {
                        match best {
                            None => {
                                best = Some(j);
                            },
                            Some(b) => {
                                match dist[b] {
                                    Some(db) => {
                                        if dj < db {
                                            best = Some(j);
                                        }
                                    },
                                    None => {},
                                }
                            },
                        }
                    },
                    None => {},
                }
            }
            j = j + 1;
        }
        let u = match best {
            None => {
                break ;
            },
            Some(u) => u,
        };
        let du = match dist[u] {
            Some(du) => du,
            None => {
                break ;
            },
        };
        let ghost open_before = open_count(done@);
        proof {
            lemma_open_count_close(done@, u as int);
        }
        done.set(u, true);
        proof {
            lemma_open_count_bound(done@);
            assert((n - open_count(done@)) * cap == (n - open_before) * cap + cap) by (nonlinear_arith)
                requires
                    open_count(done@) + 1 == open_before,
            ;
            assert((n - open_count(done@)) * cap <= n * cap) by (nonlinear_arith)
                requires
                    open_count(done@) >= 0,
                    cap >= 0,
            ;
        }
        let mut k: usize = 0;
        while k < 4
            invariant
                g.wf(),
                gg == g@,
                fits(gg, mn, mx),
                mn == min_run,
                mx == max_run,
                o == (origin.0 as int, origin.1 as int),
                gg.in_bounds(o.0, o.1),
                n == slots(gg, mx),
                cap == step_cap(gg, mn, mx),
                cap >= 0,
                cap * n <= u64::MAX,
                (n - open_count(done@)) * cap <= n * cap,
                du + cap <= (n - open_count(done@)) * cap,
                u < n,
                k <= 4,
                dist@.len() == n,
                done@.len() == n,
                dist@[0] == Some(0u64),
                done@[u as int],
                dist@[u as int] == Some(du),
                open_count(done@) <= n,
                forall|j: int| 0 <= j < n && #[trigger] done@[j] ==> dist@[j] is Some && dist@[j]->0 <= du,
                forall|a: int, b: int|
                    0 <= a < n && 0 <= b < n && #[trigger] done@[a] && !#[trigger] done@[b] && dist@[b] is Some
                        ==> dist@[a]->0 <= dist@[b]->0,
                forall|j: int, d: Direction|
                    0 <= j < n && done@[j] && (j != u || d.code() < k) ==> #[trigger] relaxed_from(gg, mn, mx, o, dist@, j, d),
                witnessed(gg, mn, mx, o, dist@),
                forall|j: int| 0 <= j < n && (#[trigger] dist@[j]) is Some ==> dist@[j]->0 <= (n - open_count(done@)) * cap,
            decreases 4 - k,
        {
            let d = Direction::from_index(k);
            let ghost m = step(gg, mn, mx, node_at(gg, mx, o, u as int), d);
            match transition(g, min_run, max_run, origin, u, d) {
                None => {},
                Some((v, w)) => {
                    if !done[v] {
                        let nd = du + w;
                        let better = match dist[v] {
                            None => true,
                            Some(old) => nd < old,
                        };
                        if better {
                            let ghost before = dist@;
                            proof {
                                let pu = choose|p: Seq<Node>|
                                    is_route(gg, mn, mx, o, p) && p.last() == node_at(gg, mx, o, u as int)
                                        && route_cost(gg, mn, mx, p) == dist@[u as int]->0;
                                assert(dist@[u as int] is Some);
                                if u > 0 {
                                    lemma_decode(gg, mx, o, u as int);
                                }
                                lemma_step_placed(gg, mn, mx, node_at(gg, mx, o, u as int), d);
                                lemma_extend_route(gg, mn, mx, o, pu, (m->0).0, (m->0).1);
                            }
                            dist.set(v, Some(nd));
                            proof {
                                assert(witnessed(gg, mn, mx, o, dist@)) by {
                                    assert forall|j: int| 0 <= j < dist@.len() && (#[trigger] dist@[j]) is Some implies exists|p: Seq<Node>|
                                        is_route(gg, mn, mx, o, p) && p.last() == node_at(gg, mx, o, j) && route_cost(gg, mn, mx, p)
                                            == dist@[j]->0 by {
                                        if j != v {
                                            assert(before[j] == dist@[j]);
                                        }
                                    }
                                }
                                assert forall|j: int, e: Direction|
                                    0 <= j < n && done@[j] && (j != u || e.code() < k) implies #[trigger] relaxed_from(gg, mn, mx, o, dist@, j, e) by {
                                    assert(relaxed_from(gg, mn, mx, o, before, j, e));
                                    assert(j != v);
                                    assert(dist@[j] == before[j]);
                                    let mm = step(gg, mn, mx, node_at(gg, mx, o, j), e);
                                    if mm is Some {
                                        if j > 0 {
                                            lemma_decode(gg, mx, o, j);
                                        }
                                        lemma_step_placed(gg, mn, mx, node_at(gg, mx, o, j), e);
                                        lemma_encode(gg, mx, o, (mm->0).0);
                                        let t = slot_of(gg, mx, (mm->0).0);
                                        if t == v {
                                            assert(dist@[t]->0 <= before[t]->0);
                                        } else {
                                            assert(dist@[t] == before[t]);
                                        }
                                    }
                                }
                            }
                        }
                    }
                },
            }
            proof {
                assert forall|j: int, e: Direction|
                    0 <= j < n && done@[j] && (j != u || e.code() < k + 1) implies #[trigger] relaxed_from(gg, mn, mx, o, dist@, j, e) by {
                    if j == u && e.code() == k {
                        assert(e == d);
                    }
                }
            }
            k = k + 1;
        }
        proof {
            assert forall|j: int, e: Direction| 0 <= j < n && done@[j] implies #[trigger] relaxed_from(gg, mn, mx, o, dist@, j, e) by {
                assert(e.code() < 4);
            }
        }
    }
    // every state with a cost is settled now
    let mut answer: Option<u64> = None;
    let mut j: usize = 0;
    while j < n
        invariant
            j <= n,
            gg == g@,
            mx == max_run,
            n == slots(gg, mx),
            n <= usize::MAX,
            dist@.len() == n,
            o == (origin.0 as int, origin.1 as int),
            dst == (dest.0 as int, dest.1 as int),
            answer matches Some(c) ==> exists|t: int|
                0 <= t < j && dist@[t] == Some(c) && node_at(gg, mx, o, t).row == dst.0 && node_at(gg, mx, o, t).col == dst.1,
            forall|t: int|
                0 <= t < j && #[trigger] dist@[t] is Some && node_at(gg, mx, o, t).row == dst.0 && node_at(gg, mx, o, t).col
                    == dst.1 ==> answer is Some && answer->0 <= dist@[t]->0,
        decreases n - j,
    {
        match dist[j] {
            Some(dj) => {
                let (row, col) = locate(g, max_run, origin, j);
                if row == dest.0 && col == dest.1 {
                    match answer {
                        None => {
                            answer = Some(dj);
                        },
                        Some(a) => {
                            if dj < a {
                                answer = Some(dj);
                            }
                        },
                    }
                }
            },
            None => {},
        }
        j = j + 1;
    }
    proof {
        assert forall|p: Seq<Node>| is_route(gg, mn, mx, o, p) && ends_at(p, dst) implies answer is Some
            && answer->0 <= route_cost(gg, mn, mx, p) by {
            lemma_route_bound(gg, mn, mx, o, dist@, done@, p);
            let t = slot_of(gg, mx, p.last());
            assert(dist@[t] is Some);
        }
    }
    match answer {
        Some(c) => {
            proof {
                let t = choose|t: int|
                    0 <= t < j && dist@[t] == Some(c) && node_at(gg, mx, o, t).row == dst.0 && node_at(gg, mx, o, t).col == dst.1;
                assert(dist@[t] is Some);
                let p = choose|p: Seq<Node>|
                    is_route(gg, mn, mx, o, p) && p.last() == node_at(gg, mx, o, t) && route_cost(gg, mn, mx, p) == dist@[t]->0;
                assert(is_route(gg, mn, mx, o, p) && ends_at(p, dst));
            }
            Ok(c)
        },
        None => Err(SearchError::NotReachable),
    }
}

proof fn lemma_all_open(s: Seq<bool>)
    requires
        forall|j: int| 0 <= j < s.len() ==> !s[j],
    ensures
        open_count(s) == s.len(),
    decreases s.len(),
{
    if s.len() > 0 {
        lemma_all_open(s.drop_last());
    }
}


/// `t` is lines of `w` decimal digits each, separated by single newlines.
pub open spec fn digit_rows(t: Seq<u8>, w: int) -> bool {
    &&& w >= 1
    &&& (t.len() + 1) as int % (w + 1) == 0
    &&& forall|k: int|
        0 <= k < t.len() ==> if k % (w + 1) == w {
            t[k] == 10
        } else {
            is_digit(t[k])
        }
}

/// The grid whose rows are the lines, `w` digits wide, of the text `t`.
pub open spec fn tiles_of(t: Seq<u8>, w: int) -> Tiles {
    let rows = (t.len() + 1) as int / (w + 1);
    Tiles { rows: rows as nat, cols: w as nat, costs: Seq::new((rows * w) as nat, |i: int| (t[i + i / w] - 48) as u64) }
}

/// Width of the lines of a grid text.
pub open spec fn width_of(t: Seq<u8>) -> int {
    choose|w: int| digit_rows(t, w)
}

proof fn lemma_width_unique(t: Seq<u8>, w: int, v: int)
    requires
        0 <= w <= t.len(),
        forall|k: int| 0 <= k < w ==> t[k] != 10,
        w < t.len() ==> t[w] == 10,
        digit_rows(t, v),
    ensures
        v == w,
{
    if v < w {
        vstd::arithmetic::div_mod::lemma_small_mod(v as nat, (v + 1) as nat);
        assert(t[v] == 10);
    } else if v > w {
        if w == t.len() {
            vstd::arithmetic::div_mod::lemma_small_mod((t.len() + 1) as nat, (v + 1) as nat);
        } else {
            vstd::arithmetic::div_mod::lemma_small_mod(w as nat, (v + 1) as nat);
            assert(is_digit(t[w]));
        }
    }
}

/// `t` with the carriage return of each CR LF line ending removed.
pub open spec fn unix(t: Seq<u8>) -> Seq<u8>
    decreases t.len(),
{
    if t.len() == 0 {
        t
    } else if t.len() >= 2 && t[0] == 13 && t[1] == 10 {
        unix(t.drop_first())
    } else {
        seq![t[0]] + unix(t.drop_first())
    }
}

/// The grid text of `b`: trimmed, with CR LF line endings read as LF.
pub open spec fn grid_text(b: Seq<u8>) -> Seq<u8> {
    unix(trim(b))
}

/// Reads a grid of single-digit costs, one text line per row.
pub fn parse_grid(b: &[u8]) -> (r: Result<Grid, SearchError>)
    ensures
        r is Err <==> forall|w: int| !digit_rows(grid_text(b@), w),
        r is Err ==> r == Err::<Grid, SearchError>(SearchError::InvalidGrid),
        r matches Ok(g) ==> g.wf() && digit_rows(grid_text(b@), g.cols as int) && g@ == tiles_of(
            grid_text(b@),
            g.cols as int,
        ),
{
    let (s, e) = trim_bounds(b);
    let ghost t = trim(b@);
    let mut v: Vec<u8> = Vec::new();
    let mut i = s;
    assert(b@.subrange(s as int, e as int) == t);
    while i < e
        invariant
            s <= i <= e <= b@.len(),
            t == b@.subrange(s as int, e as int),
            unix(t) == v@ + unix(b@.subrange(i as int, e as int)),
        decreases e - i,
    {
        let ghost rest = b@.subrange(i as int, e as int);
        assert(rest.drop_first() =~= b@.subrange(i + 1, e as int));
        assert(rest[0] == b@[i as int]);
        if i + 1 < e && b[i] == 13 && b[i + 1] == 10 {
            assert(rest[1] == b@[i + 1]);
        } else {
            assert(v@ + (seq![b@[i as int]] + unix(rest.drop_first())) =~= v@.push(b[i as int]) + unix(
                rest.drop_first(),
            ));
            v.push(b[i]);
        }
        i = i + 1;
    }
    assert(b@.subrange(i as int, e as int) =~= Seq::<u8>::empty());
    assert(v@ + Seq::<u8>::empty() =~= v@);
    assert(unix(Seq::<u8>::empty()) == Seq::<u8>::empty());
    assert(v@ == grid_text(b@));
    parse_rows(v.as_slice())
}

/// Reads the lines of digits `b`, one row each.
#[verifier::rlimit(60)]
fn parse_rows(b: &[u8]) -> (r: Result<Grid, SearchError>)
    ensures
        r is Err <==> forall|w: int| !digit_rows(b@, w),
        r is Err ==> r == Err::<Grid, SearchError>(SearchError::InvalidGrid),
        r matches Ok(g) ==> g.wf() && digit_rows(b@, g.cols as int) && g@ == tiles_of(b@, g.cols as int),
{
    let s: usize = 0;
    let e = b.len();
    let ghost t = b@;
    assert(b@.subrange(0, e as int) =~= b@);
    let len = e - s;
    let mut w: usize = 0;
    while w < len && b[s + w] != 10
        invariant
            s <= e <= b@.len(),
            len == e - s,
            s == 0,
            e == b@.len(),
            t == b@,
            w <= len,
            forall|k: int| 0 <= k < w ==> t[k] != 10,
        decreases len - w,
    {
        w = w + 1;
    }
    if w == 0 {
        proof {
            assert forall|v: int| !digit_rows(t, v) by {
                if digit_rows(t, v) {
                    lemma_width_unique(t, 0, v);
                }
            }
        }
        return Err(SearchError::InvalidGrid);
    }
    let mut costs: Vec<u64> = Vec::new();
    let mut row: usize = 0;
    let mut col: usize = 0;
    let mut k: usize = 0;
    while k < len
        invariant
            s <= e <= b@.len(),
            len == e - s,
            s == 0,
            e == b@.len(),
            t == b@,
            1 <= w <= len,
            forall|j: int| 0 <= j < w ==> t[j] != 10,
            w < len ==> t[w as int] == 10,
            k <= len,
            col <= w,
            k == row * (w + 1) + col,
            costs@.len() == row * w + col,
            forall|j: int| 0 <= j < k ==> if j % (w + 1) == w {
                t[j] == 10
            } else {
                is_digit(t[j])
            },
            forall|i: int| 0 <= i < costs@.len() ==> costs@[i] == t[i + i / w as int] - 48,
        decreases len - k,
    {
        let c = b[s + k];
        proof {
            assert(t[k as int] == c);
            vstd::arithmetic::div_mod::lemma_fundamental_div_mod_converse(k as int, w + 1, row as int, col as int);
        }
        if col == w {
            if c != 10 {
                proof {
                    assert forall|v: int| !digit_rows(t, v) by {
                        if digit_rows(t, v) {
                            lemma_width_unique(t, w as int, v);
                            assert(if (k as int) % (v + 1) == v {
                                t[k as int] == 10
                            } else {
                                is_digit(t[k as int])
                            });
                        }
                    }
                }
                return Err(SearchError::InvalidGrid);
            }
            proof {
                assert((row + 1) * (w + 1) == row * (w + 1) + w + 1) by (nonlinear_arith);
                assert((row + 1) * w == row * w + w) by (nonlinear_arith);
            }
            row = row + 1;
            col = 0;
        } else {
            if c < 48 || c > 57 {
                proof {
                    assert forall|v: int| !digit_rows(t, v) by {
                        if digit_rows(t, v) {
                            lemma_width_unique(t, w as int, v);
                            assert(if (k as int) % (v + 1) == v {
                                t[k as int] == 10
                            } else {
                                is_digit(t[k as int])
                            });
                        }
                    }
                }
                return Err(SearchError::InvalidGrid);
            }
            let ghost i = costs@.len() as int;
            proof {
                assert(row * w + col <= row * w + w) by (nonlinear_arith)
                    requires col <= w;
                assert(row * (w + 1) == row * w + row) by (nonlinear_arith);
                vstd::arithmetic::div_mod::lemma_fundamental_div_mod_converse(i, w as int, row as int, col as int);
            }
            costs.push((c - 48) as u64);
            col = col + 1;
        }
        k = k + 1;
    }
    proof {
        vstd::arithmetic::div_mod::lemma_fundamental_div_mod_converse(len as int, w + 1, row as int, col as int);
    }
    if col != w {
        proof {
            assert((len + 1) % (w + 1) != 0) by {
                if col < w {
                    vstd::arithmetic::div_mod::lemma_fundamental_div_mod_converse(len + 1, w + 1, row as int, col + 1);
                }
            }
            assert forall|v: int| !digit_rows(t, v) by {
                if digit_rows(t, v) {
                    lemma_width_unique(t, w as int, v);
                }
            }
        }
        return Err(SearchError::InvalidGrid);
    }
    proof {
        assert(row < len) by (nonlinear_arith)
            requires
                len == row * (w + 1) + w,
                w >= 1,
        ;
        assert(len + 1 == (row + 1) * (w + 1)) by (nonlinear_arith)
            requires
                len == row * (w + 1) + w,
        ;
        vstd::arithmetic::div_mod::lemma_fundamental_div_mod_converse(len + 1, w + 1, row + 1, 0);
        assert(costs@.len() == (row + 1) * w) by (nonlinear_arith)
            requires
                costs@.len() == row * w + w,
        ;
    }
    proof {
        assert(digit_rows(t, w as int));
        let tl = tiles_of(t, w as int);
        assert(tl.rows == row + 1);
        assert(costs@ =~= tl.costs);
    }
    Ok(Grid { rows: row + 1, cols: w, costs })
}


/// Whether `search` can run on `g` under this regime (see `fits`).
pub fn check_fits(g: &Grid, min_run: usize, max_run: usize) -> (b: bool)
    requires
        g.wf(),
    ensures
        b == fits(g@, min_run as int, max_run as int),
{
    let ghost total = slots(g@, max_run as int);
    let rc = match g.rows.checked_mul(g.cols) {
        None => {
            proof {
                assert(total > usize::MAX) by (nonlinear_arith)
                    requires
                        g.rows * g.cols > usize::MAX,
                        total == 1 + g.rows * g.cols * 4 * (max_run + 1),
                        max_run >= 0,
                ;
            }
            return false;
        },
        Some(x) => x,
    };
    let n: usize = if rc == 0 {
        assert(total == 1) by (nonlinear_arith)
            requires
                g.rows * g.cols == 0,
                total == 1 + g.rows * g.cols * 4 * (max_run + 1),
        ;
        1
    } else {
        let a = match rc.checked_mul(4) {
            None => {
                assert(total > usize::MAX) by (nonlinear_arith)
                    requires
                        rc * 4 > usize::MAX,
                        rc == g.rows * g.cols,
                        total == 1 + g.rows * g.cols * 4 * (max_run + 1),
                        max_run >= 0,
                ;
                return false;
            },
            Some(a) => a,
        };
        let m1 = match max_run.checked_add(1) {
            None => {
                assert(total > usize::MAX) by (nonlinear_arith)
                    requires
                        max_run + 1 > usize::MAX,
                        rc >= 1,
                        rc == g.rows * g.cols,
                        total == 1 + g.rows * g.cols * 4 * (max_run + 1),
                ;
                return false;
            },
            Some(m) => m,
        };
        let p = match a.checked_mul(m1) {
            None => {
                assert(total > usize::MAX) by (nonlinear_arith)
                    requires
                        a * m1 > usize::MAX,
                        a == rc * 4,
                        m1 == max_run + 1,
                        rc == g.rows * g.cols,
                        total == 1 + g.rows * g.cols * 4 * (max_run + 1),
                ;
                return false;
            },
            Some(p) => p,
        };
        match p.checked_add(1) {
            None => {
                assert(total > usize::MAX) by (nonlinear_arith)
                    requires
                        p + 1 > usize::MAX,
                        p == rc * 4 * m1,
                        m1 == max_run + 1,
                        rc == g.rows * g.cols,
                        total == 1 + g.rows * g.cols * 4 * (max_run + 1),
                ;
                return false;
            },
            Some(n) => {
                assert(n == total) by (nonlinear_arith)
                    requires
                        n == p + 1,
                        p == rc * 4 * m1,
                        m1 == max_run + 1,
                        rc == g.rows * g.cols,
                        total == 1 + g.rows * g.cols * 4 * (max_run + 1),
                ;
                n
            },
        }
    };
    let f: u64 = if min_run < 1 {
        1
    } else {
        min_run as u64
    };
    assert(f == at_least_one(min_run as int));
    proof {
        assert((n as int) * (f as int) <= u128::MAX) by (nonlinear_arith)
            requires
                0 <= n <= u64::MAX,
                0 <= f <= u64::MAX,
        ;
    }
    let k: u128 = (n as u128) * (f as u128);
    assert(k == total * at_least_one(min_run as int));
    let mut top: u64 = 0;
    let mut i: usize = 0;
    while i < g.costs.len()
        invariant
            i <= g.costs.len(),
            forall|j: int| 0 <= j < i ==> g.costs[j] <= top,
            top == 0 || exists|j: int| 0 <= j < i && g.costs[j] == top,
        decreases g.costs.len() - i,
    {
        if g.costs[i] > top {
            top = g.costs[i];
        }
        i = i + 1;
    }
    let ok = if top == 0 {
        true
    } else {
        match (top as u128).checked_mul(k) {
            None => false,
            Some(prod) => prod <= 0xffff_ffff_ffff_ffff,
        }
    };
    proof {
        assert(k >= 1) by (nonlinear_arith)
            requires
                k == n * f,
                n >= 1,
                f >= 1,
        ;
        if ok {
            if top > 0 {
                assert(top * k <= u64::MAX);
            }
            assert forall|j: int| 0 <= j < g.costs.len() implies g.costs[j] * (total * at_least_one(min_run as int))
                <= u64::MAX by {
                assert(g.costs[j] * k <= top * k) by (nonlinear_arith)
                    requires
                        g.costs[j] <= top,
                        k >= 1,
                ;
                if top == 0 {
                    assert(g.costs[j] == 0);
                }
            }
            assert(total <= usize::MAX);
        } else {
            assert(top > 0);
            let j = choose|j: int| 0 <= j < g.costs.len() && g.costs[j] == top;
            assert(g.costs[j] * (total * at_least_one(min_run as int)) > u64::MAX);
        }
    }
    ok
}


proof fn lemma_rows_width_unique(t: Seq<u8>, v: int, w: int)
    requires
        digit_rows(t, v),
        digit_rows(t, w),
    ensures
        v == w,
{
    if v > t.len() {
        vstd::arithmetic::div_mod::lemma_small_mod((t.len() + 1) as nat, (v + 1) as nat);
    }
    assert forall|k: int| 0 <= k < v implies t[k] != 10 by {
        vstd::arithmetic::div_mod::lemma_small_mod(k as nat, (v + 1) as nat);
        assert(if k % (v + 1) == v {
            t[k] == 10
        } else {
            is_digit(t[k])
        });
    }
    if v < t.len() {
        vstd::arithmetic::div_mod::lemma_small_mod(v as nat, (v + 1) as nat);
    }
    lemma_width_unique(t, v, w);
}

/// What the search reports for the grid text `b`, from its top-left to its
/// bottom-right cell, under the regime (`mn`, `mx`).
pub open spec fn heat_loss_outcome(b: Seq<u8>, mn: int, mx: int, r: Result<u64, SearchError>) -> bool {
    let t = grid_text(b);
    if forall|w: int| !digit_rows(t, w) {
        r == Err::<u64, SearchError>(SearchError::InvalidGrid)
    } else {
        let g = tiles_of(t, width_of(t));
        if !fits(g, mn, mx) {
            r == Err::<u64, SearchError>(SearchError::TooLarge)
        } else if !reachable(g, mn, mx, (0, 0), (g.rows - 1, g.cols - 1)) {
            r == Err::<u64, SearchError>(SearchError::NotReachable)
        } else {
            r matches Ok(c) && is_min_cost(g, mn, mx, (0, 0), (g.rows - 1, g.cols - 1), c as int)
        }
    }
}

/// Least heat loss from the top-left to the bottom-right cell of the digit grid in
/// `input`, under the regime (`min_run`, `max_run`).
pub fn least_heat_loss(input: &str, min_run: usize, max_run: usize) -> (r: Result<u64, SearchError>)
    ensures
        heat_loss_outcome(vstd::utf8::encode_utf8(input@), min_run as int, max_run as int, r),
{
    let b = input.as_bytes();
    let g = match parse_grid(b) {
        Ok(g) => g,
        Err(e) => {
            return Err(e);
        },
    };
    let ghost t = grid_text(b@);
    proof {
        lemma_rows_width_unique(t, g.cols as int, width_of(t));
    }
    if !check_fits(&g, min_run, max_run) {
        return Err(SearchError::TooLarge);
    }
    proof {
        vstd::arithmetic::div_mod::lemma_fundamental_div_mod((t.len() + 1) as int, g.cols + 1);
        assert(g.rows >= 1 && g.cols >= 1) by (nonlinear_arith)
            requires
                g.rows == (t.len() + 1) as int / (g.cols + 1),
                (t.len() + 1) as int == (g.cols + 1) * ((t.len() + 1) as int / (g.cols + 1)) + (t.len() + 1) as int % (g.cols + 1),
                (t.len() + 1) as int % (g.cols + 1) == 0,
                g.cols >= 1,
        ;
    }
    search(&g, min_run, max_run, (0, 0), (g.rows - 1, g.cols - 1))
}

/// Least heat loss with runs of one to three cells.
pub fn run_part_1(input: String) -> (r: Result<u64, SearchError>)
    ensures
        heat_loss_outcome(vstd::utf8::encode_utf8(input@), 1, 3, r),
{
    least_heat_loss(input.as_str(), 1, 3)
}

/// Least heat loss with runs of four to ten cells.
pub fn run_part_2(input: String) -> (r: Result<u64, SearchError>)
    ensures
        heat_loss_outcome(vstd::utf8::encode_utf8(input@), 4, 10, r),
{
    least_heat_loss(input.as_str(), 4, 10)
}


proof fn lemma_run_cost_nonneg(g: Tiles, row: int, col: int, d: Direction, k: nat)
    ensures
        run_cost(g, row, col, d, k) >= 0,
    decreases k,
{
    if k > 0 {
        lemma_run_cost_nonneg(g, row, col, d, (k - 1) as nat);
    }
}

proof fn lemma_route_cost_nonneg(g: Tiles, mn: int, mx: int, o: (int, int), p: Seq<Node>)
    requires
        is_route(g, mn, mx, o, p),
    ensures
        route_cost(g, mn, mx, p) >= 0,
    decreases p.len(),
{
    if p.len() > 1 {
        let q = p.drop_last();
        assert forall|k: int| 0 <= k < q.len() - 1 implies (#[trigger] edge(g, mn, mx, q[k], q[k + 1])) is Some by {
            assert(edge(g, mn, mx, p[k], p[k + 1]) is Some);
        }
        lemma_route_cost_nonneg(g, mn, mx, o, q);
        let k = p.len() - 2;
        assert(edge(g, mn, mx, p[k], p[k + 1]) is Some);
        let a = p[k];
        let d = p[k + 1].heading->0;
        lemma_run_cost_nonneg(g, a.row, a.col, d, mn as nat);
    }
}

/// When the origin is the destination, the least cost is 0, whatever the regime.
pub proof fn lemma_origin_is_destination(g: Tiles, mn: int, mx: int, o: (int, int))
    ensures
        is_min_cost(g, mn, mx, o, o, 0),
{
    let p = seq![start(o)];
    assert(is_route(g, mn, mx, o, p) && ends_at(p, o) && route_cost(g, mn, mx, p) == 0);
    assert forall|q: Seq<Node>| is_route(g, mn, mx, o, q) && ends_at(q, o) implies route_cost(g, mn, mx, q) >= 0 by {
        lemma_route_cost_nonneg(g, mn, mx, o, q);
    }
}

/// The least cost is a function of the grid, the regime and the two cells: two runs on
/// the same input report the same cost.
pub proof fn lemma_min_cost_unique(g: Tiles, mn: int, mx: int, o: (int, int), dst: (int, int), c1: int, c2: int)
    requires
        is_min_cost(g, mn, mx, o, dst, c1),
        is_min_cost(g, mn, mx, o, dst, c2),
    ensures
        c1 == c2,
{
    let first = choose|p: Seq<Node>| is_route(g, mn, mx, o, p) && ends_at(p, dst) && route_cost(g, mn, mx, p) == c1;
    let second = choose|p: Seq<Node>| is_route(g, mn, mx, o, p) && ends_at(p, dst) && route_cost(g, mn, mx, p) == c2;
    assert(route_cost(g, mn, mx, first) >= c2);
    assert(route_cost(g, mn, mx, second) >= c1);
}

/// `h` is `g` with some cells made more expensive.
pub open spec fn costlier(g: Tiles, h: Tiles) -> bool {
    &&& g.rows == h.rows
    &&& g.cols == h.cols
    &&& g.wf()
    &&& h.wf()
    &&& forall|i: int| 0 <= i < g.costs.len() ==> g.costs[i] <= h.costs[i]
}

proof fn lemma_run_cost_mono(g: Tiles, h: Tiles, row: int, col: int, d: Direction, k: nat)
    requires
        costlier(g, h),
        g.in_bounds(row, col),
        g.in_bounds(shift(row, col, d, k as int).0, shift(row, col, d, k as int).1),
    ensures
        run_cost(g, row, col, d, k) <= run_cost(h, row, col, d, k),
    decreases k,
{
    if k > 0 {
        lemma_run_cost_mono(g, h, row, col, d, (k - 1) as nat);
        let p = shift(row, col, d, k as int);
        lemma_cell_index(g, p.0, p.1);
    }
}

proof fn lemma_step_mono(g: Tiles, h: Tiles, mn: int, mx: int, a: Node, d: Direction)
    requires
        costlier(g, h),
        a.heading is Some ==> g.in_bounds(a.row, a.col),
        mn >= 0,
    ensures
        step(g, mn, mx, a, d) is Some <==> step(h, mn, mx, a, d) is Some,
        step(g, mn, mx, a, d) is Some ==> (step(g, mn, mx, a, d)->0).0 == (step(h, mn, mx, a, d)->0).0 && (step(
            g,
            mn,
            mx,
            a,
            d,
        )->0).1 <= (step(h, mn, mx, a, d)->0).1,
{
    let p = shift(a.row, a.col, d, 1);
    if g.in_bounds(p.0, p.1) {
        lemma_cell_index(g, p.0, p.1);
    }
    if a.heading is Some {
        let q = shift(a.row, a.col, d, mn);
        if g.in_bounds(q.0, q.1) {
            lemma_run_cost_mono(g, h, a.row, a.col, d, mn as nat);
        }
    }
}

proof fn lemma_edge_mono(g: Tiles, h: Tiles, mn: int, mx: int, a: Node, b: Node)
    requires
        costlier(g, h),
        a.heading is Some ==> g.in_bounds(a.row, a.col),
        mn >= 0,
    ensures
        edge(g, mn, mx, a, b) is Some <==> edge(h, mn, mx, a, b) is Some,
        edge(g, mn, mx, a, b) is Some ==> edge(g, mn, mx, a, b)->0 <= edge(h, mn, mx, a, b)->0,
        edge(g, mn, mx, a, b) is Some ==> g.in_bounds(b.row, b.col),
{
    if b.heading is Some {
        lemma_step_mono(g, h, mn, mx, a, b.heading->0);
    }
}

proof fn lemma_route_mono(g: Tiles, h: Tiles, mn: int, mx: int, o: (int, int), p: Seq<Node>)
    requires
        costlier(g, h),
        mn >= 0,
        is_route(g, mn, mx, o, p) || is_route(h, mn, mx, o, p),
    ensures
        is_route(g, mn, mx, o, p),
        is_route(h, mn, mx, o, p),
        route_cost(g, mn, mx, p) <= route_cost(h, mn, mx, p),
        p.last().heading is Some ==> g.in_bounds(p.last().row, p.last().col),
    decreases p.len(),
{
    if p.len() > 1 {
        let q = p.drop_last();
        if is_route(g, mn, mx, o, p) {
            assert forall|k: int| 0 <= k < q.len() - 1 implies (#[trigger] edge(g, mn, mx, q[k], q[k + 1])) is Some by {
                assert(edge(g, mn, mx, p[k], p[k + 1]) is Some);
            }
        } else {
            assert forall|k: int| 0 <= k < q.len() - 1 implies (#[trigger] edge(h, mn, mx, q[k], q[k + 1])) is Some by {
                assert(edge(h, mn, mx, p[k], p[k + 1]) is Some);
            }
        }
        lemma_route_mono(g, h, mn, mx, o, q);
        let n = p.len() - 2;
        assert(p[n] == q.last());
        assert(edge(g, mn, mx, p[n], p[n + 1]) is Some || edge(h, mn, mx, p[n], p[n + 1]) is Some);
        lemma_edge_mono(g, h, mn, mx, p[n], p[n + 1]);
        assert forall|k: int| 0 <= k < p.len() - 1 implies (#[trigger] edge(g, mn, mx, p[k], p[k + 1])) is Some by {
            if k < n {
                assert(q[k] == p[k] && q[k + 1] == p[k + 1]);
                assert(edge(g, mn, mx, q[k], q[k + 1]) is Some);
            }
        }
        assert forall|k: int| 0 <= k < p.len() - 1 implies (#[trigger] edge(h, mn, mx, p[k], p[k + 1])) is Some by {
            if k < n {
                assert(q[k] == p[k] && q[k + 1] == p[k + 1]);
                assert(edge(h, mn, mx, q[k], q[k + 1]) is Some);
            }
        }
    }
}

/// Raising the cost of cells never lowers the least cost, and does not change whether
/// the destination can be reached.
pub proof fn lemma_costlier_never_cheaper(
    g: Tiles,
    h: Tiles,
    mn: int,
    mx: int,
    o: (int, int),
    dst: (int, int),
    c: int,
    c2: int,
)
    requires
        costlier(g, h),
        mn >= 0,
        is_min_cost(g, mn, mx, o, dst, c),
        is_min_cost(h, mn, mx, o, dst, c2),
    ensures
        c <= c2,
{
    let p = choose|p: Seq<Node>| is_route(h, mn, mx, o, p) && ends_at(p, dst) && route_cost(h, mn, mx, p) == c2;
    lemma_route_mono(g, h, mn, mx, o, p);
}

/// For two grid texts of the same shape where the second never has a cheaper cell, the
/// least heat loss reported for the second is never below the one for the first.
pub proof fn lemma_costlier_text(b1: Seq<u8>, b2: Seq<u8>, mn: int, mx: int, a: u64, c: u64)
    requires
        mn >= 0,
        heat_loss_outcome(b1, mn, mx, Ok(a)),
        heat_loss_outcome(b2, mn, mx, Ok(c)),
        costlier(
            tiles_of(grid_text(b1), width_of(grid_text(b1))),
            tiles_of(grid_text(b2), width_of(grid_text(b2))),
        ),
    ensures
        a <= c,
{
    let g = tiles_of(grid_text(b1), width_of(grid_text(b1)));
    let h = tiles_of(grid_text(b2), width_of(grid_text(b2)));
    lemma_costlier_never_cheaper(g, h, mn, mx, (0, 0), (g.rows - 1, g.cols - 1), a as int, c as int);
}

/// Raising the cost of cells does not change which destinations can be reached.
pub proof fn lemma_costlier_same_reach(g: Tiles, h: Tiles, mn: int, mx: int, o: (int, int), dst: (int, int))
    requires
        costlier(g, h),
        mn >= 0,
    ensures
        reachable(g, mn, mx, o, dst) == reachable(h, mn, mx, o, dst),
{
    if reachable(g, mn, mx, o, dst) {
        let p = choose|p: Seq<Node>| is_route(g, mn, mx, o, p) && ends_at(p, dst);
        lemma_route_mono(g, h, mn, mx, o, p);
    }
    if reachable(h, mn, mx, o, dst) {
        let p = choose|p: Seq<Node>| is_route(h, mn, mx, o, p) && ends_at(p, dst);
        lemma_route_mono(g, h, mn, mx, o, p);
    }
}


/// The heading of a unit step from cell `a` to cell `b`, when they are neighbours.
pub open spec fn step_dir(a: (int, int), b: (int, int)) -> Option<Direction> {
    if b == shift(a.0, a.1, Direction::North, 1) {
        Some(Direction::North)
    } else if b == shift(a.0, a.1, Direction::West, 1) {
        Some(Direction::West)
    } else if b == shift(a.0, a.1, Direction::South, 1) {
        Some(Direction::South)
    } else if b == shift(a.0, a.1, Direction::East, 1) {
        Some(Direction::East)
    } else {
        None
    }
}

/// A walk from `o`: cells of the grid, each a neighbour of the one before, never
/// stepping straight back to the cell before that.
pub open spec fn is_walk(g: Tiles, o: (int, int), w: Seq<(int, int)>) -> bool {
    &&& w.len() >= 1
    &&& w[0] == o
    &&& forall|k: int| 0 <= k < w.len() ==> g.in_bounds((#[trigger] w[k]).0, w[k].1)
    &&& forall|k: int| 0 <= k < w.len() - 1 ==> (#[trigger] step_dir(w[k], w[k + 1])) is Some
    &&& forall|k: int| 1 <= k < w.len() - 1 ==> #[trigger] w[k + 1] != w[k - 1]
}

/// Cost of a walk: the cost of each cell entered.
pub open spec fn walk_cost(g: Tiles, w: Seq<(int, int)>) -> int
    decreases w.len(),
{
    if w.len() <= 1 {
        0
    } else {
        walk_cost(g, w.drop_last()) + g.cell(w.last().0, w.last().1)
    }
}

/// `c` is the least cost of a walk from `o` to `dst`.
pub open spec fn is_min_walk(g: Tiles, o: (int, int), dst: (int, int), c: int) -> bool {
    &&& exists|w: Seq<(int, int)>| is_walk(g, o, w) && w.last() == dst && walk_cost(g, w) == c
    &&& forall|w: Seq<(int, int)>| is_walk(g, o, w) && w.last() == dst ==> walk_cost(g, w) >= c
}

pub open spec fn cells(p: Seq<Node>) -> Seq<(int, int)> {
    Seq::new(p.len(), |k: int| (p[k].row, p[k].col))
}

proof fn lemma_unit_edge(g: Tiles, mx: int, a: Node, b: Node)
    requires
        edge(g, 1, mx, a, b) is Some,
    ensures
        b.heading is Some,
        (b.row, b.col) == shift(a.row, a.col, b.heading->0, 1),
        g.in_bounds(b.row, b.col),
        edge(g, 1, mx, a, b)->0 == g.cell(b.row, b.col),
        a.heading is Some ==> b.heading->0 != (a.heading->0).spec_opposite(),
        step_dir((a.row, a.col), (b.row, b.col)) == b.heading,
{
    let d = b.heading->0;
    if a.heading is Some && d != a.heading->0 {
        assert(run_cost(g, a.row, a.col, d, 0) == 0);
        assert(run_cost(g, a.row, a.col, d, 1) == g.cell(shift(a.row, a.col, d, 1).0, shift(a.row, a.col, d, 1).1));
    }
}

proof fn lemma_route_is_walk(g: Tiles, mx: int, o: (int, int), p: Seq<Node>)
    requires
        is_route(g, 1, mx, o, p),
        g.in_bounds(o.0, o.1),
    ensures
        is_walk(g, o, cells(p)),
        walk_cost(g, cells(p)) == route_cost(g, 1, mx, p),
        cells(p).last() == (p.last().row, p.last().col),
    decreases p.len(),
{
    let w = cells(p);
    assert forall|k: int| 0 <= k < w.len() implies g.in_bounds((#[trigger] w[k]).0, w[k].1) by {
        if k > 0 {
            assert(edge(g, 1, mx, p[k - 1], p[(k - 1) + 1]) is Some);
            lemma_unit_edge(g, mx, p[k - 1], p[k]);
        }
    }
    assert forall|k: int| 0 <= k < w.len() - 1 implies (#[trigger] step_dir(w[k], w[k + 1])) is Some by {
        assert(edge(g, 1, mx, p[k], p[k + 1]) is Some);
        lemma_unit_edge(g, mx, p[k], p[k + 1]);
    }
    assert forall|k: int| 1 <= k < w.len() - 1 implies #[trigger] w[k + 1] != w[k - 1] by {
        assert(edge(g, 1, mx, p[k - 1], p[(k - 1) + 1]) is Some);
        assert(edge(g, 1, mx, p[k], p[k + 1]) is Some);
        lemma_unit_edge(g, mx, p[k - 1], p[k]);
        lemma_unit_edge(g, mx, p[k], p[k + 1]);
    }
    if p.len() > 1 {
        let q = p.drop_last();
        assert forall|k: int| 0 <= k < q.len() - 1 implies (#[trigger] edge(g, 1, mx, q[k], q[k + 1])) is Some by {
            assert(edge(g, 1, mx, p[k], p[k + 1]) is Some);
        }
        lemma_route_is_walk(g, mx, o, q);
        assert(cells(q) =~= w.drop_last());
        let n = p.len() - 2;
        assert(edge(g, 1, mx, p[n], p[n + 1]) is Some);
        lemma_unit_edge(g, mx, p[n], p[n + 1]);
    }
}

/// The route that follows the first `k` cells of the walk `w`.
pub open spec fn route_of(o: (int, int), w: Seq<(int, int)>, k: int) -> Seq<Node>
    decreases k,
{
    if k <= 1 {
        seq![start(o)]
    } else {
        let p = route_of(o, w, k - 1);
        let a = p.last();
        let d = step_dir(w[k - 2], w[k - 1])->0;
        let run = if a.heading == Some(d) {
            a.run + 1
        } else {
            1
        };
        p.push(Node { row: w[k - 1].0, col: w[k - 1].1, heading: Some(d), run })
    }
}

proof fn lemma_walk_is_route(g: Tiles, mx: int, o: (int, int), w: Seq<(int, int)>, k: int)
    requires
        is_walk(g, o, w),
        1 <= k <= w.len(),
        mx >= g.rows,
        mx >= g.cols,
    ensures
        is_route(g, 1, mx, o, route_of(o, w, k)),
        route_of(o, w, k).len() == k,
        route_cost(g, 1, mx, route_of(o, w, k)) == walk_cost(g, w.take(k)),
        (route_of(o, w, k).last().row, route_of(o, w, k).last().col) == w[k - 1],
        route_of(o, w, k).last().heading is Some ==> {
            let a = route_of(o, w, k).last();
            let back = shift(a.row, a.col, (a.heading->0).spec_opposite(), a.run);
            &&& a.run >= 1
            &&& g.in_bounds(back.0, back.1)
            &&& k >= 2
            &&& step_dir(w[k - 2], w[k - 1]) == a.heading
        },
        route_of(o, w, k).last().heading is None ==> k == 1,
    decreases k,
{
    if k == 1 {
        let p = route_of(o, w, 1);
        assert(w.take(1).len() == 1);
    } else {
        lemma_walk_is_route(g, mx, o, w, k - 1);
        let p = route_of(o, w, k - 1);
        let a = p.last();
        assert(step_dir(w[k - 2], w[(k - 2) + 1]) is Some);
        let d = step_dir(w[k - 2], w[k - 1])->0;
        let b = route_of(o, w, k).last();
        assert(g.in_bounds(w[k - 1].0, w[k - 1].1));
        assert(g.in_bounds(w[k - 2].0, w[k - 2].1));
        if a.heading is Some {
            let h = a.heading->0;
            assert(w[(k - 2) + 1] != w[(k - 2) - 1]);
            assert(d != h.spec_opposite());
            if d == h {
                let back = shift(a.row, a.col, h.spec_opposite(), a.run);
                assert(a.run < mx);
            } else {
                assert(run_cost(g, a.row, a.col, d, 0) == 0);
            }
        }
        assert(edge(g, 1, mx, a, b) == Some(g.cell(w[k - 1].0, w[k - 1].1)));
        lemma_extend_route(g, 1, mx, o, p, b, g.cell(w[k - 1].0, w[k - 1].1));
        assert(w.take(k).drop_last() =~= w.take(k - 1));
    }
}

/// With turns of a single cell and runs allowed as long as the grid, the least route
/// cost is the least cost of a plain walk that never steps straight back.
pub proof fn lemma_unit_turns_plain_walks(g: Tiles, mx: int, o: (int, int), dst: (int, int), c: int)
    requires
        g.wf(),
        g.in_bounds(o.0, o.1),
        mx >= g.rows,
        mx >= g.cols,
    ensures
        is_min_cost(g, 1, mx, o, dst, c) <==> is_min_walk(g, o, dst, c),
{
    if is_min_cost(g, 1, mx, o, dst, c) {
        let p = choose|p: Seq<Node>| is_route(g, 1, mx, o, p) && ends_at(p, dst) && route_cost(g, 1, mx, p) == c;
        lemma_route_is_walk(g, mx, o, p);
        assert forall|w: Seq<(int, int)>| is_walk(g, o, w) && w.last() == dst implies walk_cost(g, w) >= c by {
            lemma_walk_is_route(g, mx, o, w, w.len() as int);
            assert(w.take(w.len() as int) =~= w);
            let q = route_of(o, w, w.len() as int);
            assert(ends_at(q, dst));
        }
    }
    if is_min_walk(g, o, dst, c) {
        let w = choose|w: Seq<(int, int)>| is_walk(g, o, w) && w.last() == dst && walk_cost(g, w) == c;
        lemma_walk_is_route(g, mx, o, w, w.len() as int);
        assert(w.take(w.len() as int) =~= w);
        let q = route_of(o, w, w.len() as int);
        assert(ends_at(q, dst));
        assert forall|p: Seq<Node>| is_route(g, 1, mx, o, p) && ends_at(p, dst) implies route_cost(g, 1, mx, p) >= c by {
            lemma_route_is_walk(g, mx, o, p);
        }
    }
}

} // verus!
