//! Guard patrol: a guard walks a grid, turning right at obstacles, until
//! leaving the map.  The first answer counts the distinct positions
//! visited; the second counts the visited cells where one added obstacle
//! would trap the guard in a loop.
//!
//! The walk is driven by a step budget large enough that a walk that
//! exhausts it must have revisited a state; the reference behaviour on
//! such inputs is to walk forever.

use vstd::prelude::*;
use vstd::string::StringSliceAdditionalSpecFns;

verus! {

/// The four directions the guard can face.
#[derive(Hash, Eq, PartialEq, Ord, PartialOrd, Copy, Clone, Debug, Structural)]
pub enum CardinalDirections {
    North,
    East,
    South,
    West,
}

pub open spec fn spec_turn_right(d: CardinalDirections) -> CardinalDirections {
    match d {
        CardinalDirections::North => CardinalDirections::East,
        CardinalDirections::East => CardinalDirections::South,
        CardinalDirections::South => CardinalDirections::West,
        CardinalDirections::West => CardinalDirections::North,
    }
}

pub open spec fn spec_dxy(d: CardinalDirections) -> (int, int) {
    match d {
        CardinalDirections::North => (0, -1),
        CardinalDirections::East => (1, 0),
        CardinalDirections::South => (0, 1),
        CardinalDirections::West => (-1, 0),
    }
}

impl CardinalDirections {
    /// The direction after a right turn.
    pub fn turn_right(&self) -> (r: Self)
        ensures
            r == spec_turn_right(*self),
    {
        match self {
            CardinalDirections::North => CardinalDirections::East,
            CardinalDirections::East => CardinalDirections::South,
            CardinalDirections::South => CardinalDirections::West,
            CardinalDirections::West => CardinalDirections::North,
        }
    }

    /// The unit step of the direction.
    pub fn dxy(&self) -> (r: (i32, i32))
        ensures
            r.0 == spec_dxy(*self).0,
            r.1 == spec_dxy(*self).1,
    {
        match self {
            CardinalDirections::North => (0, -1),
            CardinalDirections::East => (1, 0),
            CardinalDirections::South => (0, 1),
            CardinalDirections::West => (-1, 0),
        }
    }

    /// The horizontal component of the step.
    pub fn dx(&self) -> (r: i32)
        ensures
            r == spec_dxy(*self).0,
    {
        self.dxy().0
    }

    /// The vertical component of the step.
    pub fn dy(&self) -> (r: i32)
        ensures
            r == spec_dxy(*self).1,
    {
        self.dxy().1
    }
}

/// The obstacle grid: one row of booleans per non-empty line, true at
/// `#`.
pub open spec fn obs_rec(ls: Seq<Seq<u8>>) -> Seq<Seq<bool>>
    decreases ls.len(),
{
    if ls.len() == 0 {
        seq![]
    } else if ls[0].len() == 0 {
        obs_rec(ls.drop_first())
    } else {
        seq![ls[0].map_values(|b: u8| b == 0x23)] + obs_rec(ls.drop_first())
    }
}

/// The column of the first `^` in a row.
pub open spec fn caret_in_row(l: Seq<u8>, x: int) -> Option<int>
    decreases l.len() - x,
{
    if x < 0 || x >= l.len() {
        None
    } else if l[x] == 0x5e {
        Some(x)
    } else {
        caret_in_row(l, x + 1)
    }
}

/// The guard position: the first `^` of the non-empty lines, row major,
/// with the row counted among non-empty lines.
pub open spec fn guard_rec(ls: Seq<Seq<u8>>, y: int) -> Option<(int, int)>
    decreases ls.len(),
{
    if ls.len() == 0 {
        None
    } else if ls[0].len() == 0 {
        guard_rec(ls.drop_first(), y)
    } else {
        match caret_in_row(ls[0], 0) {
            Some(x) => Some((x, y)),
            None => guard_rec(ls.drop_first(), y + 1),
        }
    }
}

/// The parse of a whole input: the guard position and the obstacle grid.
pub open spec fn spec_parse(s: Seq<u8>) -> Option<((int, int), Seq<Seq<bool>>)> {
    let ls = crate::parsing::spec_lines(s);
    match guard_rec(ls, 0) {
        None => None,
        Some(p) => Some((p, obs_rec(ls))),
    }
}

/// The cell of the grid at `(x, y)`, `None` outside it.
pub open spec fn spec_cell(g: Seq<Seq<bool>>, x: int, y: int) -> Option<bool> {
    if 0 <= y < g.len() && 0 <= x < g[y].len() {
        Some(g[y][x])
    } else {
        None
    }
}

/// Find the guard and read the obstacle grid.
#[verifier::loop_isolation(false)]
#[verifier::rlimit(60)]
pub fn parse_input(input: &str) -> (r: Option<((i32, i32), Vec<Vec<bool>>)>)
    requires
        input.spec_bytes().len() < 0x8000_0000,
    ensures
        r is Some <==> spec_parse(input.spec_bytes()) is Some,
        r matches Some(v) ==> spec_parse(input.spec_bytes()) matches Some(p) && (
        v.0.0 as int,
        v.0.1 as int,
        ) == p.0 && v.1.deep_view() == p.1,
{
    let bytes = input.as_bytes();
    let ls = crate::parsing::lines_bytes(bytes);
    let ghost lsv = crate::parsing::spec_lines(input.spec_bytes());
    proof {
        crate::parsing::lemma_spec_lines_bounds(input.spec_bytes());
    }
    let mut grid: Vec<Vec<bool>> = Vec::new();
    let mut guard: Option<(i32, i32)> = None;
    let mut li: usize = 0;
    let mut rown: usize = 0;
    proof {
        assert(lsv.skip(0) =~= lsv);
        assert(grid.deep_view() + obs_rec(lsv) =~~= obs_rec(lsv));
    }
    while li < ls.len()
        invariant
            li <= ls@.len(),
            rown <= li,
            obs_rec(lsv) == grid.deep_view() + obs_rec(lsv.skip(li as int)),
            grid.deep_view().len() == rown,
            match guard {
                Some(p) => guard_rec(lsv, 0) == Some((p.0 as int, p.1 as int)),
                None => guard_rec(lsv, 0) == (match guard_rec(lsv.skip(li as int), rown as int) {
                    Some(q) => Some(q),
                    None => None,
                }),
            },
        decreases ls@.len() - li,
    {
        let ghost pre_grid = grid.deep_view();
        proof {
            assert(lsv.skip(li as int)[0] == lsv[li as int]);
            assert(lsv.skip(li as int).drop_first() =~= lsv.skip(li as int + 1));
            assert(ls.deep_view()[li as int] == ls@[li as int]@);
            assert(lsv[li as int].len() <= input.spec_bytes().len());
        }
        let line = &ls[li];
        if line.len() > 0 {
            let ghost lv = lsv[li as int];
            let mut row: Vec<bool> = Vec::new();
            let mut x: usize = 0;
            let mut caret: Option<usize> = None;
            while x < line.len()
                invariant
                    x <= lv.len(),
                    row@.len() == x,
                    forall|j: int| 0 <= j < x ==> row@[j] == (lv[j] == 0x23),
                    match caret {
                        Some(c) => caret_in_row(lv, 0) == Some(c as int) && c < lv.len(),
                        None => caret_in_row(lv, 0) == caret_in_row(lv, x as int),
                    },
                decreases lv.len() - x,
            {
                let b = line[x];
                row.push(b == 0x23);
                if b == 0x5e && caret.is_none() {
                    caret = Some(x);
                }
                x = x + 1;
            }
            proof {
                assert(caret_in_row(lv, lv.len() as int) is None);
                assert(row@ =~= lv.map_values(|b: u8| b == 0x23));
            }
            grid.push(row);
            if guard.is_none() {
                match caret {
                    Some(c) => {
                        guard = Some((c as i32, rown as i32));
                    },
                    None => {},
                }
            }
            proof {
                assert(grid.deep_view() =~~= pre_grid.push(lv.map_values(|b: u8| b == 0x23)));
                assert(pre_grid + (seq![lv.map_values(|b: u8| b == 0x23)] + obs_rec(
                    lsv.skip(li as int + 1),
                )) =~~= grid.deep_view() + obs_rec(lsv.skip(li as int + 1)));
            }
            rown = rown + 1;
        }
        li = li + 1;
    }
    proof {
        assert(lsv.skip(li as int) =~= Seq::<Seq<u8>>::empty());
        assert(grid.deep_view() + Seq::<Seq<bool>>::empty() =~~= grid.deep_view());
    }
    match guard {
        Some(p) => Some((p, grid)),
        None => None,
    }
}

/// Read one cell of the grid, `None` outside it.
pub fn get_obstacle(obstacles: &Vec<Vec<bool>>, pos: &(i32, i32)) -> (r: Option<bool>)
    ensures
        r == spec_cell(obstacles.deep_view(), pos.0 as int, pos.1 as int),
{
    cell_at(obstacles, pos.0 as i64, pos.1 as i64)
}

/// Read one cell of the grid at wide coordinates.
fn cell_at(g: &Vec<Vec<bool>>, x: i64, y: i64) -> (r: Option<bool>)
    ensures
        r == spec_cell(g.deep_view(), x as int, y as int),
{
    if y < 0 || (y as u64) >= (g.len() as u64) {
        return None;
    }
    let row = &g[y as usize];
    proof {
        assert(g.deep_view()[y as int] == g@[y as int]@);
    }
    if x < 0 || (x as u64) >= (row.len() as u64) {
        return None;
    }
    Some(row[x as usize])
}

/// Record a position once.
#[verifier::loop_isolation(false)]
fn push_unique(acc: &mut Vec<(i32, i32)>, p: (i32, i32))
    ensures
        final(acc)@ == vpush(old(acc)@, p),
{
    let mut i: usize = 0;
    while i < acc.len()
        invariant
            i <= acc@.len(),
            acc@ == old(acc)@,
            forall|j: int| 0 <= j < i ==> acc@[j] != p,
        decreases acc@.len() - i,
    {
        let q = acc[i];
        if q.0 == p.0 && q.1 == p.1 {
            proof {
                assert(acc@[i as int] == p);
                assert(acc@.contains(p));
            }
            return ;
        }
        i = i + 1;
    }
    proof {
        assert(!acc@.contains(p));
    }
    acc.push(p);
}

/// Record a position once.
pub open spec fn vpush(acc: Seq<(i32, i32)>, p: (i32, i32)) -> Seq<(i32, i32)> {
    if acc.contains(p) {
        acc
    } else {
        acc.push(p)
    }
}

/// The longest row of the grid.
pub open spec fn max_row_len(g: Seq<Seq<bool>>) -> int
    decreases g.len(),
{
    if g.len() == 0 {
        0
    } else {
        let rest = max_row_len(g.drop_first());
        if g[0].len() >= rest {
            g[0].len() as int
        } else {
            rest
        }
    }
}

/// The longest row is bounded by any bound on the rows.
proof fn lemma_max_row_le(g: Seq<Seq<bool>>, cap: int)
    requires
        forall|i: int| 0 <= i < g.len() ==> (#[trigger] g[i]).len() <= cap,
        0 <= cap,
    ensures
        0 <= max_row_len(g) <= cap,
    decreases g.len(),
{
    if g.len() > 0 {
        assert forall|i: int|
            0 <= i < g.drop_first().len() implies (#[trigger] g.drop_first()[i]).len() <= cap by {
            assert(g.drop_first()[i] == g[i + 1]);
        }
        lemma_max_row_le(g.drop_first(), cap);
    }
}

/// The walk budget: more steps than the grid has states, so a walk that
/// exhausts it has revisited a state and would never leave the map.
pub open spec fn fuel_for(g: Seq<Seq<bool>>) -> nat {
    (20 * (g.len() + 1) * (max_row_len(g) + 1) + 100) as nat
}

/// The positions the guard visits, walking from `(x, y)` facing `d`,
/// within `fuel` steps.
pub open spec fn walk_rec(
    g: Seq<Seq<bool>>,
    x: int,
    y: int,
    d: CardinalDirections,
    visited: Seq<(i32, i32)>,
    fuel: nat,
) -> Seq<(i32, i32)>
    decreases fuel,
{
    if fuel == 0 {
        visited
    } else {
        let dxy = spec_dxy(d);
        match spec_cell(g, x + dxy.0, y + dxy.1) {
            None => vpush(visited, (x as i32, y as i32)),
            Some(true) => walk_rec(g, x, y, spec_turn_right(d), visited, (fuel - 1) as nat),
            Some(false) => walk_rec(
                g,
                x + dxy.0,
                y + dxy.1,
                d,
                vpush(visited, (x as i32, y as i32)),
                (fuel - 1) as nat,
            ),
        }
    }
}

/// Whether the walk from `(x, y)` facing `d` revisits a state within
/// `fuel` steps.
pub open spec fn loop_rec(
    g: Seq<Seq<bool>>,
    x: int,
    y: int,
    d: CardinalDirections,
    seen: Seq<((i32, i32), CardinalDirections)>,
    fuel: nat,
) -> bool
    decreases fuel,
{
    if fuel == 0 {
        true
    } else {
        let dxy = spec_dxy(d);
        match spec_cell(g, x + dxy.0, y + dxy.1) {
            None => false,
            Some(true) => loop_rec(g, x, y, spec_turn_right(d), seen, (fuel - 1) as nat),
            Some(false) => {
                if seen.contains(((x as i32, y as i32), d)) {
                    true
                } else {
                    loop_rec(
                        g,
                        x + dxy.0,
                        y + dxy.1,
                        d,
                        seen.push(((x as i32, y as i32), d)),
                        (fuel - 1) as nat,
                    )
                }
            },
        }
    }
}

/// The longest row, measured.
#[verifier::loop_isolation(false)]
fn measure_max_row(g: &Vec<Vec<bool>>) -> (r: usize)
    ensures
        r == max_row_len(g.deep_view()),
{
    let ghost gv = g.deep_view();
    let mut best: usize = 0;
    let mut i: usize = g.len();
    while i > 0
        invariant
            i <= gv.len(),
            best == max_row_len(gv.skip(i as int)),
        decreases i,
    {
        i = i - 1;
        proof {
            assert(gv.skip(i as int)[0] == gv[i as int]);
            assert(gv.skip(i as int).drop_first() =~= gv.skip(i as int + 1));
            assert(gv[i as int] == g@[i as int]@);
        }
        let rl = g[i].len();
        if rl > best {
            best = rl;
        }
    }
    proof {
        assert(gv.skip(0) =~= gv);
    }
    best
}

/// Walk the guard until it leaves the map or the budget runs out, and
/// return the distinct visited positions in first-visit order.
#[verifier::loop_isolation(false)]
fn walk_from(guard: (i32, i32), obstacles: &Vec<Vec<bool>>) -> (r: Vec<(i32, i32)>)
    requires
        obstacles.deep_view().len() <= 0x8000_0000,
        forall|i: int|
            0 <= i < obstacles.deep_view().len() ==> (#[trigger] obstacles.deep_view()[i]).len()
                <= 0x8000_0000,
    ensures
        r@ == walk_rec(
            obstacles.deep_view(),
            guard.0 as int,
            guard.1 as int,
            CardinalDirections::North,
            Seq::<(i32, i32)>::empty(),
            fuel_for(obstacles.deep_view()),
        ),
{
    let ghost g = obstacles.deep_view();
    let maxr = measure_max_row(obstacles);
    proof {
        lemma_max_row_le(g, 0x8000_0000);
        assert(20u128 * ((obstacles@.len() as u128) + 1) * ((maxr as u128) + 1) + 100
            <= 20 * 0x8000_0001u128 * 0x8000_0001u128 + 100) by (nonlinear_arith)
            requires
                obstacles@.len() as u128 <= 0x8000_0000u128,
                maxr as u128 <= 0x8000_0000u128,
        ;
    }
    let mut fuel: u128 = 20u128 * ((obstacles.len() as u128) + 1) * ((maxr as u128) + 1) + 100;
    proof {
        assert(fuel == fuel_for(g));
    }
    let mut x: i64 = guard.0 as i64;
    let mut y: i64 = guard.1 as i64;
    let mut d = CardinalDirections::North;
    let mut visited: Vec<(i32, i32)> = Vec::new();
    while fuel > 0
        invariant
            (x == guard.0 as i64 && y == guard.1 as i64) || (0 <= y < g.len() && 0 <= x
                < g[y as int].len()),
            walk_rec(
                g,
                guard.0 as int,
                guard.1 as int,
                CardinalDirections::North,
                Seq::<(i32, i32)>::empty(),
                fuel_for(g),
            ) == walk_rec(g, x as int, y as int, d, visited@, fuel as nat),
        decreases fuel,
    {
        let step = d.dxy();
        let nx: i64 = x + step.0 as i64;
        let ny: i64 = y + step.1 as i64;
        match cell_at(obstacles, nx, ny) {
            None => {
                push_unique(&mut visited, (x as i32, y as i32));
                return visited;
            },
            Some(true) => {
                d = d.turn_right();
            },
            Some(false) => {
                push_unique(&mut visited, (x as i32, y as i32));
                proof {
                    assert(0 <= ny < g.len());
                    assert(0 <= nx < g[ny as int].len());
                    assert(g[ny as int].len() <= 0x8000_0000);
                }
                x = nx;
                y = ny;
            },
        }
        fuel = fuel - 1;
    }
    visited
}

/// The obstacle grid built from the input lines keeps the line bounds.
proof fn lemma_obs_bounds(ls: Seq<Seq<u8>>, cap: int)
    requires
        forall|i: int| 0 <= i < ls.len() ==> (#[trigger] ls[i]).len() <= cap,
    ensures
        obs_rec(ls).len() <= ls.len(),
        forall|i: int| 0 <= i < obs_rec(ls).len() ==> (#[trigger] obs_rec(ls)[i]).len() <= cap,
    decreases ls.len(),
{
    if ls.len() > 0 {
        assert forall|i: int|
            0 <= i < ls.drop_first().len() implies (#[trigger] ls.drop_first()[i]).len() <= cap by {
            assert(ls.drop_first()[i] == ls[i + 1]);
        }
        lemma_obs_bounds(ls.drop_first(), cap);
        if ls[0].len() != 0 {
            assert forall|i: int|
                0 <= i < obs_rec(ls).len() implies (#[trigger] obs_rec(ls)[i]).len() <= cap by {
                if i == 0 {
                    assert(obs_rec(ls)[0] == ls[0].map_values(|b: u8| b == 0x23));
                } else {
                    assert(obs_rec(ls)[i] == obs_rec(ls.drop_first())[i - 1]);
                }
            }
        }
    }
}

/// Whether a state was seen before.
#[verifier::loop_isolation(false)]
fn seen_contains(v: &Vec<((i32, i32), CardinalDirections)>, s: ((i32, i32), CardinalDirections))
    -> (r: bool)
    ensures
        r == v@.contains(s),
{
    let mut i: usize = 0;
    while i < v.len()
        invariant
            i <= v@.len(),
            forall|j: int| 0 <= j < i ==> v@[j] != s,
        decreases v@.len() - i,
    {
        let q = v[i];
        if q.0.0 == s.0.0 && q.0.1 == s.0.1 && q.1 == s.1 {
            proof {
                assert(v@[i as int] == s);
            }
            return true;
        }
        i = i + 1;
    }
    false
}

/// Walk the guard from `guard` and report whether it revisits a state
/// before it can leave the map.
#[verifier::loop_isolation(false)]
pub fn is_loop(guard: &(i32, i32), obstacles: &Vec<Vec<bool>>) -> (r: bool)
    requires
        obstacles.deep_view().len() <= 0x8000_0000,
        forall|i: int|
            0 <= i < obstacles.deep_view().len() ==> (#[trigger] obstacles.deep_view()[i]).len()
                <= 0x8000_0000,
    ensures
        r == loop_rec(
            obstacles.deep_view(),
            guard.0 as int,
            guard.1 as int,
            CardinalDirections::North,
            Seq::<((i32, i32), CardinalDirections)>::empty(),
            fuel_for(obstacles.deep_view()),
        ),
{
    let ghost g = obstacles.deep_view();
    let maxr = measure_max_row(obstacles);
    proof {
        lemma_max_row_le(g, 0x8000_0000);
        assert(20u128 * ((obstacles@.len() as u128) + 1) * ((maxr as u128) + 1) + 100
            <= 20 * 0x8000_0001u128 * 0x8000_0001u128 + 100) by (nonlinear_arith)
            requires
                obstacles@.len() as u128 <= 0x8000_0000u128,
                maxr as u128 <= 0x8000_0000u128,
        ;
    }
    let mut fuel: u128 = 20u128 * ((obstacles.len() as u128) + 1) * ((maxr as u128) + 1) + 100;
    proof {
        assert(fuel == fuel_for(g));
    }
    let mut x: i64 = guard.0 as i64;
    let mut y: i64 = guard.1 as i64;
    let mut d = CardinalDirections::North;
    let mut seen: Vec<((i32, i32), CardinalDirections)> = Vec::new();
    while fuel > 0
        invariant
            (x == guard.0 as i64 && y == guard.1 as i64) || (0 <= y < g.len() && 0 <= x
                < g[y as int].len()),
            loop_rec(
                g,
                guard.0 as int,
                guard.1 as int,
                CardinalDirections::North,
                Seq::<((i32, i32), CardinalDirections)>::empty(),
                fuel_for(g),
            ) == loop_rec(g, x as int, y as int, d, seen@, fuel as nat),
        decreases fuel,
    {
        let step = d.dxy();
        let nx: i64 = x + step.0 as i64;
        let ny: i64 = y + step.1 as i64;
        match cell_at(obstacles, nx, ny) {
            None => {
                return false;
            },
            Some(true) => {
                d = d.turn_right();
            },
            Some(false) => {
                if seen_contains(&seen, ((x as i32, y as i32), d)) {
                    return true;
                }
                seen.push(((x as i32, y as i32), d));
                proof {
                    assert(0 <= ny < g.len());
                    assert(0 <= nx < g[ny as int].len());
                    assert(g[ny as int].len() <= 0x8000_0000);
                }
                x = nx;
                y = ny;
            },
        }
        fuel = fuel - 1;
    }
    true
}

/// Walk the guard and return the distinct visited positions, the final
/// position included.
#[verifier::loop_isolation(false)]
pub fn part_1(input: &str) -> (r: Option<Vec<(i32, i32)>>)
    requires
        input.spec_bytes().len() < 0x8000_0000,
    ensures
        r is Some <==> spec_parse(input.spec_bytes()) is Some,
        r matches Some(v) ==> spec_parse(input.spec_bytes()) matches Some(p) && v@ == walk_rec(
            p.1,
            p.0.0,
            p.0.1,
            CardinalDirections::North,
            Seq::<(i32, i32)>::empty(),
            fuel_for(p.1),
        ),
{
    let (guard, grid) = match parse_input(input) {
        Some(v) => v,
        None => {
            return None;
        },
    };
    proof {
        crate::parsing::lemma_spec_lines_bounds(input.spec_bytes());
        lemma_obs_bounds(
            crate::parsing::spec_lines(input.spec_bytes()),
            input.spec_bytes().len() as int,
        );
    }
    Some(walk_from(guard, &grid))
}

/// The grid at `(x, y)` when candidate `(x, y)` carries an obstacle.
pub open spec fn set_cell(g: Seq<Seq<bool>>, x: int, y: int) -> Seq<Seq<bool>> {
    g.update(y, g[y].update(x, true))
}

/// Whether placing an obstacle at `(x, y)` is tried and traps the guard:
/// the cell is free, off the guard and the cell in front of it, was
/// visited, and the walk with the obstacle loops.
pub open spec fn cand_ok(
    g: Seq<Seq<bool>>,
    guard: (int, int),
    visited: Seq<(i32, i32)>,
    x: int,
    y: int,
) -> bool {
    &&& !g[y][x]
    &&& (x, y) != guard
    &&& (x, y) != (guard.0, guard.1 - 1)
    &&& visited.contains((x as i32, y as i32))
    &&& loop_rec(
        set_cell(g, x, y),
        guard.0,
        guard.1,
        CardinalDirections::North,
        Seq::<((i32, i32), CardinalDirections)>::empty(),
        fuel_for(set_cell(g, x, y)),
    )
}

pub open spec fn part2_row(
    g: Seq<Seq<bool>>,
    guard: (int, int),
    visited: Seq<(i32, i32)>,
    y: int,
    x: int,
) -> Seq<(i32, i32)>
    decreases g[y].len() - x,
{
    if y < 0 || y >= g.len() || x < 0 || x >= g[y].len() {
        seq![]
    } else {
        (if cand_ok(g, guard, visited, x, y) {
            seq![(x as i32, y as i32)]
        } else {
            seq![]
        }) + part2_row(g, guard, visited, y, x + 1)
    }
}

pub open spec fn part2_rows(
    g: Seq<Seq<bool>>,
    guard: (int, int),
    visited: Seq<(i32, i32)>,
    y: int,
) -> Seq<(i32, i32)>
    decreases g.len() - y,
{
    if y < 0 || y >= g.len() {
        seq![]
    } else {
        part2_row(g, guard, visited, y, 0) + part2_rows(g, guard, visited, y + 1)
    }
}

/// Whether a position was visited.
#[verifier::loop_isolation(false)]
fn contains_pos(v: &Vec<(i32, i32)>, p: (i32, i32)) -> (r: bool)
    ensures
        r == v@.contains(p),
{
    let mut i: usize = 0;
    while i < v.len()
        invariant
            i <= v@.len(),
            forall|j: int| 0 <= j < i ==> v@[j] != p,
        decreases v@.len() - i,
    {
        let q = v[i];
        if q.0 == p.0 && q.1 == p.1 {
            proof {
                assert(v@[i as int] == p);
            }
            return true;
        }
        i = i + 1;
    }
    false
}

/// A copy of the grid with an obstacle added at `(x, y)`.
#[verifier::loop_isolation(false)]
fn grid_with_obstacle(g: &Vec<Vec<bool>>, x: usize, y: usize) -> (r: Vec<Vec<bool>>)
    requires
        y < g.deep_view().len(),
        x < g.deep_view()[y as int].len(),
    ensures
        r.deep_view() == set_cell(g.deep_view(), x as int, y as int),
{
    let ghost gv = g.deep_view();
    let mut out: Vec<Vec<bool>> = Vec::new();
    let mut i: usize = 0;
    while i < g.len()
        invariant
            i <= gv.len(),
            out.deep_view().len() == i,
            forall|j: int|
                0 <= j < i ==> (#[trigger] out.deep_view()[j]) == set_cell(
                    gv,
                    x as int,
                    y as int,
                )[j],
        decreases gv.len() - i,
    {
        proof {
            assert(gv[i as int] == g@[i as int]@);
        }
        let mut row: Vec<bool> = vstd::slice::slice_to_vec(g[i].as_slice());
        if i == y {
            row.set(x, true);
            proof {
                assert(row@ =~= gv[y as int].update(x as int, true));
            }
        }
        let ghost pre_dv = out.deep_view();
        let ghost rowv = row@;
        out.push(row);
        proof {
            assert(out.deep_view() =~~= pre_dv.push(rowv));
            assert(set_cell(gv, x as int, y as int).len() == gv.len());
            assert(set_cell(gv, x as int, y as int)[i as int] == (if i as int == y as int {
                gv[y as int].update(x as int, true)
            } else {
                gv[i as int]
            }));
        }
        i = i + 1;
    }
    proof {
        assert(out.deep_view() =~~= set_cell(gv, x as int, y as int));
    }
    out
}

/// Try an obstacle on every free visited cell and collect the positions
/// that trap the guard.
#[verifier::loop_isolation(false)]
pub fn part_2(input: &str) -> (r: Option<Vec<(i32, i32)>>)
    requires
        input.spec_bytes().len() < 0x8000_0000,
    ensures
        r is Some <==> spec_parse(input.spec_bytes()) is Some,
        r matches Some(v) ==> spec_parse(input.spec_bytes()) matches Some(p) && v@ == part2_rows(
            p.1,
            p.0,
            walk_rec(
                p.1,
                p.0.0,
                p.0.1,
                CardinalDirections::North,
                Seq::<(i32, i32)>::empty(),
                fuel_for(p.1),
            ),
            0,
        ),
{
    let (guard, grid) = match parse_input(input) {
        Some(v) => v,
        None => {
            return None;
        },
    };
    proof {
        crate::parsing::lemma_spec_lines_bounds(input.spec_bytes());
        lemma_obs_bounds(
            crate::parsing::spec_lines(input.spec_bytes()),
            input.spec_bytes().len() as int,
        );
    }
    let visited = walk_from(guard, &grid);
    let ghost g = grid.deep_view();
    let ghost gd = (guard.0 as int, guard.1 as int);
    let ghost vis = visited@;
    let mut out: Vec<(i32, i32)> = Vec::new();
    let mut y: usize = 0;
    while y < grid.len()
        invariant
            y <= g.len(),
            part2_rows(g, gd, vis, 0) == out@ + part2_rows(g, gd, vis, y as int),
        decreases g.len() - y,
    {
        proof {
            assert(g[y as int] == grid@[y as int]@);
        }
        let row_len = grid[y].len();
        let mut x: usize = 0;
        while x < row_len
            invariant
                x <= g[y as int].len(),
                part2_rows(g, gd, vis, 0) == out@ + part2_row(g, gd, vis, y as int, x as int)
                    + part2_rows(g, gd, vis, y as int + 1),
            decreases row_len - x,
        {
            let ghost pre = out@;
            let free = !grid[y][x];
            let off_guard = !((x as i64) == guard.0 as i64 && (y as i64) == guard.1 as i64);
            let off_front = !((x as i64) == guard.0 as i64 && (y as i64) == guard.1 as i64 - 1);
            let was_visited = contains_pos(&visited, (x as i32, y as i32));
            if free && off_guard && off_front && was_visited {
                let modified = grid_with_obstacle(&grid, x, y);
                if is_loop(&guard, &modified) {
                    out.push((x as i32, y as i32));
                    proof {
                        assert(cand_ok(g, gd, vis, x as int, y as int));
                        assert(pre + (seq![(x as i32, y as i32)] + (part2_row(
                            g,
                            gd,
                            vis,
                            y as int,
                            x as int + 1,
                        ) + part2_rows(g, gd, vis, y as int + 1))) =~= out@ + part2_row(
                            g,
                            gd,
                            vis,
                            y as int,
                            x as int + 1,
                        ) + part2_rows(g, gd, vis, y as int + 1));
                    }
                } else {
                    proof {
                        assert(!cand_ok(g, gd, vis, x as int, y as int));
                    }
                }
            } else {
                proof {
                    assert(!cand_ok(g, gd, vis, x as int, y as int));
                }
            }
            proof {
                assert(pre + part2_row(g, gd, vis, y as int, x as int) + part2_rows(
                    g,
                    gd,
                    vis,
                    y as int + 1,
                ) =~= out@ + part2_row(g, gd, vis, y as int, x as int + 1) + part2_rows(
                    g,
                    gd,
                    vis,
                    y as int + 1,
                ));
            }
            x = x + 1;
        }
        y = y + 1;
    }
    proof {
        assert(part2_rows(g, gd, vis, g.len() as int) =~= Seq::<(i32, i32)>::empty());
        assert(out@ + Seq::<(i32, i32)>::empty() =~= out@);
    }
    Some(out)
}

} // verus!
