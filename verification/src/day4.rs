//! Grid word search: count occurrences of a word along rays in eight
//! directions, and count crossings of two diagonal occurrences around one
//! centre.

use vstd::prelude::*;
use vstd::string::StringSliceAdditionalSpecFns;

verus! {

/// The grid: one row of bytes per non-empty line.
pub open spec fn grid_rec(ls: Seq<Seq<u8>>) -> Seq<Seq<u8>>
    decreases ls.len(),
{
    if ls.len() == 0 {
        seq![]
    } else if ls[0].len() == 0 {
        grid_rec(ls.drop_first())
    } else {
        seq![ls[0]] + grid_rec(ls.drop_first())
    }
}

/// The grid of a whole input text.
pub open spec fn spec_grid(s: Seq<u8>) -> Seq<Seq<u8>> {
    grid_rec(crate::parsing::spec_lines(s))
}

/// The word `w` reads from `(x, y)` along direction `(dx, dy)`, every
/// step inside the grid.
pub open spec fn found_at(w: Seq<u8>, g: Seq<Seq<u8>>, x: int, y: int, dx: int, dy: int) -> bool {
    forall|i: int|
        0 <= i < w.len() ==> {
            let xi = x + i * dx;
            let yi = y + i * dy;
            &&& 0 <= yi < g.len()
            &&& 0 <= xi < g[yi].len()
            &&& g[yi][xi] == #[trigger] w[i]
        }
}

/// Build the grid from the non-empty input lines.
#[verifier::loop_isolation(false)]
pub fn parse_input(input: &str) -> (r: Vec<Vec<u8>>)
    ensures
        r.deep_view() == spec_grid(input.spec_bytes()),
{
    let bytes = input.as_bytes();
    let ls = crate::parsing::lines_bytes(bytes);
    let ghost lsv = crate::parsing::spec_lines(input.spec_bytes());
    let mut out: Vec<Vec<u8>> = Vec::new();
    let mut li: usize = 0;
    proof {
        assert(lsv.skip(0) =~= lsv);
        assert(out.deep_view() + grid_rec(lsv) =~~= grid_rec(lsv));
    }
    while li < ls.len()
        invariant
            li <= ls@.len(),
            spec_grid(input.spec_bytes()) == out.deep_view() + grid_rec(lsv.skip(li as int)),
        decreases ls@.len() - li,
    {
        let ghost pre_out = out.deep_view();
        proof {
            assert(lsv.skip(li as int)[0] == lsv[li as int]);
            assert(lsv.skip(li as int).drop_first() =~= lsv.skip(li as int + 1));
            assert(ls.deep_view()[li as int] == ls@[li as int]@);
        }
        let line = &ls[li];
        if line.len() > 0 {
            let row = vstd::slice::slice_to_vec(line.as_slice());
            out.push(row);
            proof {
                assert(out.deep_view() =~~= pre_out.push(lsv[li as int]));
                assert(pre_out + (seq![lsv[li as int]] + grid_rec(lsv.skip(li as int + 1))) =~~=
                    out.deep_view() + grid_rec(lsv.skip(li as int + 1)));
            }
        }
        li = li + 1;
    }
    proof {
        assert(lsv.skip(li as int) =~= Seq::<Seq<u8>>::empty());
        assert(out.deep_view() + grid_rec(Seq::<Seq<u8>>::empty()) =~~= out.deep_view());
    }
    out
}

/// Walk one ray and compare it to the word.
#[verifier::loop_isolation(false)]
fn scan_dir(w: &[u8], grid: &Vec<Vec<u8>>, x: i128, y: i128, dx: i32, dy: i32) -> (r: bool)
    requires
        -0x1_0000_0000_0000_0000i128 <= x <= 0x1_0000_0000_0000_0000i128,
        -0x1_0000_0000_0000_0000i128 <= y <= 0x1_0000_0000_0000_0000i128,
    ensures
        r == found_at(w@, grid.deep_view(), x as int, y as int, dx as int, dy as int),
{
    let ghost g = grid.deep_view();
    let mut i: usize = 0;
    let mut cx: i128 = x;
    let mut cy: i128 = y;
    while i < w.len()
        invariant
            i <= w@.len(),
            cx == x + i * (dx as i128),
            cy == y + i * (dy as i128),
            -0x1_0000_0000_0000_0000i128 - (i as i128) * 0x8000_0000i128 <= cx
                <= 0x1_0000_0000_0000_0000i128 + (i as i128) * 0x8000_0000i128,
            -0x1_0000_0000_0000_0000i128 - (i as i128) * 0x8000_0000i128 <= cy
                <= 0x1_0000_0000_0000_0000i128 + (i as i128) * 0x8000_0000i128,
            forall|j: int| 0 <= j < i ==> 0 <= y + #[trigger] (j * (dy as int)) < g.len(),
            forall|j: int|
                0 <= j < i ==> 0 <= x + #[trigger] (j * (dx as int)) < g[y + j * (dy as int)].len(),
            forall|j: int|
                0 <= j < i ==> g[y + j * (dy as int)][x + j * (dx as int)] == #[trigger] w@[j],
        decreases w@.len() - i,
    {
        if cy < 0 || cy >= grid.len() as i128 {
            proof {
                assert(!found_at(w@, g, x as int, y as int, dx as int, dy as int)) by {
                    if found_at(w@, g, x as int, y as int, dx as int, dy as int) {
                        let e = w@[i as int];
                        assert(false);
                    }
                }
            }
            return false;
        }
        let row = &grid[cy as usize];
        if cx < 0 || cx >= row.len() as i128 {
            proof {
                assert(g[cy as int] == grid@[cy as int]@);
                assert(!found_at(w@, g, x as int, y as int, dx as int, dy as int)) by {
                    if found_at(w@, g, x as int, y as int, dx as int, dy as int) {
                        let e = w@[i as int];
                        assert(false);
                    }
                }
            }
            return false;
        }
        proof {
            assert(g[cy as int] == grid@[cy as int]@);
        }
        if row[cx as usize] != w[i] {
            proof {
                assert(!found_at(w@, g, x as int, y as int, dx as int, dy as int)) by {
                    if found_at(w@, g, x as int, y as int, dx as int, dy as int) {
                        let e = w@[i as int];
                        assert(false);
                    }
                }
            }
            return false;
        }
        proof {
            assert((i + 1) as i128 * 0x8000_0000i128 == (i as i128) * 0x8000_0000i128
                + 0x8000_0000i128) by (nonlinear_arith);
            assert((i + 1) as int * (dx as int) == i * (dx as int) + dx) by (nonlinear_arith);
            assert((i + 1) as int * (dy as int) == i * (dy as int) + dy) by (nonlinear_arith);
        }
        cx = cx + dx as i128;
        cy = cy + dy as i128;
        i = i + 1;
    }
    proof {
        assert forall|j: int| 0 <= j < w@.len() implies {
            let xj = x + j * (dx as int);
            let yj = y + j * (dy as int);
            &&& 0 <= yj < g.len()
            &&& 0 <= xj < g[yj].len()
            &&& g[yj][xj] == #[trigger] w@[j]
        } by {
            assert(0 <= j < i);
            assert(0 <= y + j * (dy as int) < g.len());
            assert(0 <= x + j * (dx as int) < g[y + j * (dy as int)].len());
            assert(g[y + j * (dy as int)][x + j * (dx as int)] == w@[j]);
        }
        assert(found_at(w@, g, x as int, y as int, dx as int, dy as int));
    }
    true
}

/// Whether the word reads from `(x, y)` along `(dx, dy)` in the grid.
pub fn check_direction(search_string: &str, grid: &Vec<Vec<u8>>, x: i32, y: i32, dx: i32, dy: i32)
    -> (r: bool)
    ensures
        r == found_at(
            search_string.spec_bytes(),
            grid.deep_view(),
            x as int,
            y as int,
            dx as int,
            dy as int,
        ),
{
    let w = search_string.as_bytes();
    scan_dir(w, grid, x as i128, y as i128, dx, dy)
}

/// The four cardinal and four intercardinal directions.
pub open spec fn dir8(k: int) -> (int, int) {
    if k == 0 {
        (0, -1)
    } else if k == 1 {
        (1, 0)
    } else if k == 2 {
        (0, 1)
    } else if k == 3 {
        (-1, 0)
    } else if k == 4 {
        (1, -1)
    } else if k == 5 {
        (1, 1)
    } else if k == 6 {
        (-1, 1)
    } else {
        (-1, -1)
    }
}

pub open spec fn xmas_word() -> Seq<u8> {
    seq![0x58, 0x4d, 0x41, 0x53]
}

pub open spec fn mas_word() -> Seq<u8> {
    seq![0x4d, 0x41, 0x53]
}

/// How many of the directions from `k` on carry the word from `(x, y)`.
pub open spec fn dir_hits(g: Seq<Seq<u8>>, x: int, y: int, k: int) -> nat
    decreases 8 - k,
{
    if k < 0 || k >= 8 {
        0
    } else {
        (if found_at(xmas_word(), g, x, y, dir8(k).0, dir8(k).1) {
            1nat
        } else {
            0nat
        }) + dir_hits(g, x, y, k + 1)
    }
}

/// The first answer for one cell: direction hits where the cell starts the
/// word.
pub open spec fn cell_count(g: Seq<Seq<u8>>, x: int, y: int) -> nat {
    if 0 <= y < g.len() && 0 <= x < g[y].len() && g[y][x] == 0x58 {
        dir_hits(g, x, y, 0)
    } else {
        0
    }
}

pub open spec fn row_count(g: Seq<Seq<u8>>, y: int, x: int) -> nat
    decreases g[y].len() - x,
{
    if y < 0 || y >= g.len() || x < 0 || x >= g[y].len() {
        0
    } else {
        cell_count(g, x, y) + row_count(g, y, x + 1)
    }
}

pub open spec fn grid_count(g: Seq<Seq<u8>>, y: int) -> nat
    decreases g.len() - y,
{
    if y < 0 || y >= g.len() {
        0
    } else {
        row_count(g, y, 0) + grid_count(g, y + 1)
    }
}

/// The first answer over a whole input.
pub open spec fn part1_spec(s: Seq<u8>) -> nat {
    grid_count(spec_grid(s), 0)
}

/// Count how many times the word reads from an `X` in any of the eight
/// directions, over the whole grid.
#[verifier::loop_isolation(false)]
pub fn part_1(input: &str) -> (r: usize)
    requires
        part1_spec(input.spec_bytes()) <= usize::MAX,
    ensures
        r == part1_spec(input.spec_bytes()),
{
    let grid = parse_input(input);
    let ghost g = grid.deep_view();
    let xmas: Vec<u8> = vec![0x58u8, 0x4d, 0x41, 0x53];
    proof {
        assert(xmas@ =~= xmas_word());
    }
    let mut total: usize = 0;
    let mut y: usize = 0;
    while y < grid.len()
        invariant
            y <= grid@.len(),
            total + grid_count(g, y as int) == grid_count(g, 0),
        decreases grid@.len() - y,
    {
        let row_len = grid[y].len();
        proof {
            assert(g[y as int] == grid@[y as int]@);
        }
        let mut x: usize = 0;
        while x < row_len
            invariant
                x <= g[y as int].len(),
                total + row_count(g, y as int, x as int) + grid_count(g, y as int + 1)
                    == grid_count(g, 0),
            decreases row_len - x,
        {
            proof {
                assert(row_count(g, y as int, x as int) == cell_count(g, x as int, y as int)
                    + row_count(g, y as int, x as int + 1));
            }
            if grid[y][x] == 0x58 {
                let mut k: usize = 0;
                let mut hits: usize = 0;
                while k < 8
                    invariant
                        k <= 8,
                        hits + dir_hits(g, x as int, y as int, k as int) == dir_hits(
                            g,
                            x as int,
                            y as int,
                            0,
                        ),
                    decreases 8 - k,
                {
                    let (dx, dy): (i32, i32) = if k == 0 {
                        (0, -1)
                    } else if k == 1 {
                        (1, 0)
                    } else if k == 2 {
                        (0, 1)
                    } else if k == 3 {
                        (-1, 0)
                    } else if k == 4 {
                        (1, -1)
                    } else if k == 5 {
                        (1, 1)
                    } else if k == 6 {
                        (-1, 1)
                    } else {
                        (-1, -1)
                    };
                    proof {
                        assert((dx as int, dy as int) == dir8(k as int));
                    }
                    if scan_dir(xmas.as_slice(), &grid, x as i128, y as i128, dx, dy) {
                        hits = hits + 1;
                    }
                    k = k + 1;
                }
                total = total + hits;
            }
            x = x + 1;
        }
        y = y + 1;
    }
    total
}

/// How many of the four intercardinal directions carry `MAS` through the
/// centre `(x, y)`, the `A`.
pub open spec fn mas_hits(g: Seq<Seq<u8>>, x: int, y: int, k: int) -> nat
    decreases 8 - k,
{
    if k < 4 || k >= 8 {
        0
    } else {
        (if found_at(mas_word(), g, x - dir8(k).0, y - dir8(k).1, dir8(k).0, dir8(k).1) {
            1nat
        } else {
            0nat
        }) + mas_hits(g, x, y, k + 1)
    }
}

/// The second answer for one cell: an `A` crossed by exactly two diagonal
/// occurrences.
pub open spec fn cell_cross(g: Seq<Seq<u8>>, x: int, y: int) -> nat {
    if 0 <= y < g.len() && 0 <= x < g[y].len() && g[y][x] == 0x41 && mas_hits(g, x, y, 4) == 2 {
        1nat
    } else {
        0nat
    }
}

pub open spec fn row_cross(g: Seq<Seq<u8>>, y: int, x: int) -> nat
    decreases g[y].len() - x,
{
    if y < 0 || y >= g.len() || x < 0 || x >= g[y].len() {
        0
    } else {
        cell_cross(g, x, y) + row_cross(g, y, x + 1)
    }
}

pub open spec fn grid_cross(g: Seq<Seq<u8>>, y: int) -> nat
    decreases g.len() - y,
{
    if y < 0 || y >= g.len() {
        0
    } else {
        row_cross(g, y, 0) + grid_cross(g, y + 1)
    }
}

/// The second answer over a whole input.
pub open spec fn part2_spec(s: Seq<u8>) -> nat {
    grid_cross(spec_grid(s), 0)
}

/// Count the `A` cells crossed by exactly two diagonal `MAS` occurrences.
#[verifier::loop_isolation(false)]
pub fn part_2(input: &str) -> (r: usize)
    requires
        part2_spec(input.spec_bytes()) <= usize::MAX,
    ensures
        r == part2_spec(input.spec_bytes()),
{
    let grid = parse_input(input);
    let ghost g = grid.deep_view();
    let mas: Vec<u8> = vec![0x4du8, 0x41, 0x53];
    proof {
        assert(mas@ =~= mas_word());
    }
    let mut total: usize = 0;
    let mut y: usize = 0;
    while y < grid.len()
        invariant
            y <= grid@.len(),
            total + grid_cross(g, y as int) == grid_cross(g, 0),
        decreases grid@.len() - y,
    {
        let row_len = grid[y].len();
        proof {
            assert(g[y as int] == grid@[y as int]@);
        }
        let mut x: usize = 0;
        while x < row_len
            invariant
                x <= g[y as int].len(),
                total + row_cross(g, y as int, x as int) + grid_cross(g, y as int + 1)
                    == grid_cross(g, 0),
            decreases row_len - x,
        {
            proof {
                assert(row_cross(g, y as int, x as int) == cell_cross(g, x as int, y as int)
                    + row_cross(g, y as int, x as int + 1));
            }
            if grid[y][x] == 0x41 {
                let mut k: usize = 4;
                let mut hits: usize = 0;
                while k < 8
                    invariant
                        4 <= k <= 8,
                        hits + mas_hits(g, x as int, y as int, k as int) == mas_hits(
                            g,
                            x as int,
                            y as int,
                            4,
                        ),
                        hits <= k - 4,
                    decreases 8 - k,
                {
                    let (dx, dy): (i32, i32) = if k == 4 {
                        (1, -1)
                    } else if k == 5 {
                        (1, 1)
                    } else if k == 6 {
                        (-1, 1)
                    } else {
                        (-1, -1)
                    };
                    proof {
                        assert((dx as int, dy as int) == dir8(k as int));
                    }
                    if scan_dir(
                        mas.as_slice(),
                        &grid,
                        x as i128 - dx as i128,
                        y as i128 - dy as i128,
                        dx,
                        dy,
                    ) {
                        hits = hits + 1;
                    }
                    k = k + 1;
                }
                if hits == 2 {
                    total = total + 1;
                }
            }
            x = x + 1;
        }
        y = y + 1;
    }
    total
}

} // verus!
