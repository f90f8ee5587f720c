//! Antenna antinodes: two antennas of one frequency project antinodes
//! along their line.  The first answer counts the single mirror points
//! inside the grid, the second every grid point on the extended rays.

use vstd::prelude::*;
use vstd::string::StringSliceAdditionalSpecFns;

verus! {

/// An ASCII letter or digit, the frequencies the grid may hold.
pub open spec fn is_alnum(b: u8) -> bool {
    (0x30 <= b <= 0x39) || (0x41 <= b <= 0x5a) || (0x61 <= b <= 0x7a)
}

/// The antennas of one line: frequency and position of every alphanumeric
/// byte.
pub open spec fn line_antennas(l: Seq<u8>, y: int, x: int) -> Seq<(u8, (i32, i32))>
    decreases l.len(),
{
    if l.len() == 0 {
        seq![]
    } else if is_alnum(l[0]) {
        seq![(l[0], (x as i32, y as i32))] + line_antennas(l.drop_first(), y, x + 1)
    } else {
        line_antennas(l.drop_first(), y, x + 1)
    }
}

/// The antennas of the non-empty lines, row by row.
pub open spec fn antennas_rec(ls: Seq<Seq<u8>>, y: int) -> Seq<(u8, (i32, i32))>
    decreases ls.len(),
{
    if ls.len() == 0 {
        seq![]
    } else if ls[0].len() == 0 {
        antennas_rec(ls.drop_first(), y)
    } else {
        line_antennas(ls[0], y, 0) + antennas_rec(ls.drop_first(), y + 1)
    }
}

/// The predicate that keeps the non-whitespace bytes of a line.
pub open spec fn not_ws_fn() -> spec_fn(u8) -> bool {
    |b: u8| !crate::parsing::is_ws(b)
}

/// The non-whitespace count of the first non-empty line, the grid size.
pub open spec fn spec_grid_size(ls: Seq<Seq<u8>>) -> Option<int>
    decreases ls.len(),
{
    if ls.len() == 0 {
        None
    } else if ls[0].len() == 0 {
        spec_grid_size(ls.drop_first())
    } else {
        Some(ls[0].filter(not_ws_fn()).len() as int)
    }
}

/// The parse of a whole input: the antenna list and the grid size.
pub open spec fn spec_parse(s: Seq<u8>) -> Option<(Seq<(u8, (i32, i32))>, int)> {
    let ls = crate::parsing::spec_lines(s);
    match spec_grid_size(ls) {
        None => None,
        Some(sz) => Some((antennas_rec(ls, 0), sz)),
    }
}

/// List every antenna with its frequency, and measure the grid size from
/// the first non-empty line.
#[verifier::loop_isolation(false)]
#[verifier::rlimit(60)]
pub fn parse_input(input: &str) -> (r: Option<(Vec<(u8, (i32, i32))>, usize)>)
    requires
        input.spec_bytes().len() < 0x8000_0000,
    ensures
        r is Some <==> spec_parse(input.spec_bytes()) is Some,
        r matches Some(v) ==> spec_parse(input.spec_bytes()) matches Some(p) && v.0@ == p.0
            && v.1 == p.1,
{
    let bytes = input.as_bytes();
    let ls = crate::parsing::lines_bytes(bytes);
    let ghost lsv = crate::parsing::spec_lines(input.spec_bytes());
    proof {
        crate::parsing::lemma_spec_lines_bounds(input.spec_bytes());
    }
    let mut size: usize = 0;
    let mut found_size = false;
    let mut out: Vec<(u8, (i32, i32))> = Vec::new();
    let mut li: usize = 0;
    let mut rown: usize = 0;
    proof {
        assert(lsv.skip(0) =~= lsv);
        assert(out@ + antennas_rec(lsv, 0) =~= antennas_rec(lsv, 0));
    }
    while li < ls.len()
        invariant
            li <= ls@.len(),
            rown <= li,
            antennas_rec(lsv, 0) == out@ + antennas_rec(lsv.skip(li as int), rown as int),
            found_size <==> (exists|j: int| 0 <= j < li && (#[trigger] lsv[j]).len() != 0),
            !found_size ==> spec_grid_size(lsv.skip(li as int)) == spec_grid_size(lsv),
            found_size ==> spec_grid_size(lsv) == Some(size as int),
        decreases ls@.len() - li,
    {
        proof {
            assert(lsv.skip(li as int)[0] == lsv[li as int]);
            assert(lsv.skip(li as int).drop_first() =~= lsv.skip(li as int + 1));
            assert(ls.deep_view()[li as int] == ls@[li as int]@);
            assert(lsv[li as int].len() <= input.spec_bytes().len());
        }
        let line = &ls[li];
        if line.len() > 0 {
            let ghost lv = lsv[li as int];
            if !found_size {
                let mut c: usize = 0;
                let mut t: usize = 0;
                proof {
                    reveal_with_fuel(Seq::<_>::filter, 2);
                    assert(lv.take(0) =~= Seq::<u8>::empty());
                    assert(lv.take(0).filter(not_ws_fn()).len() == 0);
                }
                while t < line.len()
                    invariant
                        t <= lv.len(),
                        c == lv.take(t as int).filter(not_ws_fn()).len(),
                        c <= t,
                    decreases lv.len() - t,
                {
                    let b = line[t];
                    proof {
                        assert(lv.take(t as int + 1).drop_last() =~= lv.take(t as int));
                        assert(lv.take(t as int + 1).last() == lv[t as int]);
                        assert(lv[t as int] == b);
                    }
                    proof {
                        reveal_with_fuel(Seq::<_>::filter, 2);
                        assert(not_ws_fn()(lv[t as int]) == !crate::parsing::is_ws(lv[t as int]));
                    }
                    if !(b == 0x20 || b == 0x09 || b == 0x0a || b == 0x0b || b == 0x0c || b
                        == 0x0d) {
                        proof {
                            reveal_with_fuel(Seq::<_>::filter, 2);
                            assert(lv.take(t as int + 1).filter(not_ws_fn()) =~= lv.take(
                                t as int,
                            ).filter(not_ws_fn()).push(lv[t as int]));
                        }
                        c = c + 1;
                    } else {
                        proof {
                            reveal_with_fuel(Seq::<_>::filter, 2);
                            assert(lv.take(t as int + 1).filter(not_ws_fn()) =~= lv.take(
                                t as int,
                            ).filter(not_ws_fn()));
                        }
                    }
                    t = t + 1;
                }
                proof {
                    assert(lv.take(lv.len() as int) =~= lv);
                }
                size = c;
                found_size = true;
            }
            let mut x: usize = 0;
            let ghost pre_out = out@;
            proof {
                assert(lv.skip(0) =~= lv);
            }
            while x < line.len()
                invariant
                    x <= lv.len(),
                    out@ + line_antennas(lv.skip(x as int), rown as int, x as int) =~= pre_out
                        + line_antennas(lv, rown as int, 0),
                decreases lv.len() - x,
            {
                proof {
                    assert(lv.skip(x as int)[0] == lv[x as int]);
                    assert(lv.skip(x as int).drop_first() =~= lv.skip(x as int + 1));
                }
                let b = line[x];
                if (0x30 <= b && b <= 0x39) || (0x41 <= b && b <= 0x5a) || (0x61 <= b && b
                    <= 0x7a) {
                    let ghost p2 = out@;
                    out.push((b, (x as i32, rown as i32)));
                    proof {
                        assert(p2 + (seq![(b, (x as i32, rown as i32))] + line_antennas(
                            lv.skip(x as int + 1),
                            rown as int,
                            x as int + 1,
                        )) =~= out@ + line_antennas(lv.skip(x as int + 1), rown as int, x as int
                            + 1));
                    }
                }
                x = x + 1;
            }
            proof {
                assert(lv.skip(lv.len() as int) =~= Seq::<u8>::empty());
                assert(out@ + Seq::<(u8, (i32, i32))>::empty() =~= out@);
            }
            rown = rown + 1;
        }
        li = li + 1;
    }
    proof {
        assert(lsv.skip(li as int) =~= Seq::<Seq<u8>>::empty());
        assert(out@ + Seq::<(u8, (i32, i32))>::empty() =~= out@);
    }
    if found_size {
        Some((out, size))
    } else {
        None
    }
}

/// Push repeated antinodes of a pair: starting at the left antenna and
/// stepping by the difference of the two.
pub struct AntinodeIterator {
    pub curr: (i32, i32),
    pub dx: i32,
    pub dy: i32,
}

impl AntinodeIterator {
    /// The next point on the ray: the current one, stepping past it.
    pub fn next(&mut self) -> (r: Option<(i32, i32)>)
        requires
            i32::MIN <= old(self).curr.0 + old(self).dx <= i32::MAX,
            i32::MIN <= old(self).curr.1 + old(self).dy <= i32::MAX,
        ensures
            r == Some(old(self).curr),
            final(self).curr.0 == old(self).curr.0 + old(self).dx,
            final(self).curr.1 == old(self).curr.1 + old(self).dy,
            final(self).dx == old(self).dx,
            final(self).dy == old(self).dy,
    {
        let (x, y) = self.curr;
        self.curr = (x + self.dx, y + self.dy);
        Some((x, y))
    }
}

/// The ray of antinodes of the ordered pair `(left, right)`.
pub fn calculate_antinodes(left: &(i32, i32), right: &(i32, i32)) -> (r: AntinodeIterator)
    requires
        i32::MIN <= left.0 - right.0 <= i32::MAX,
        i32::MIN <= left.1 - right.1 <= i32::MAX,
    ensures
        r.curr == *left,
        r.dx == left.0 - right.0,
        r.dy == left.1 - right.1,
{
    AntinodeIterator { curr: (left.0, left.1), dx: left.0 - right.0, dy: left.1 - right.1 }
}

/// The single mirror antinode of the ordered pair: the left antenna moved
/// once more away from the right one.
pub fn calculate_antinode(left: &(i32, i32), right: &(i32, i32)) -> (r: (i32, i32))
    requires
        i32::MIN <= 2 * left.0 - right.0 <= i32::MAX,
        i32::MIN <= 2 * left.1 - right.1 <= i32::MAX,
    ensures
        r.0 == 2 * left.0 - right.0,
        r.1 == 2 * left.1 - right.1,
{
    let x = (2 * (left.0 as i64) - right.0 as i64) as i32;
    let y = (2 * (left.1 as i64) - right.1 as i64) as i32;
    (x, y)
}

/// Whether a point lies on the square grid.
pub open spec fn spec_valid(p: (i32, i32), size: int) -> bool {
    0 <= p.0 < size && 0 <= p.1 < size
}

/// Whether a point lies on the square grid.
pub fn is_valid(p: (i32, i32), grid_size: usize) -> (r: bool)
    ensures
        r == spec_valid(p, grid_size as int),
{
    let (x, y) = p;
    x >= 0 && (x as u64) < grid_size as u64 && y >= 0 && (y as u64) < grid_size as u64
}

/// Whether an integer point lies on the square grid.
pub open spec fn valid_pt(p: (int, int), size: int) -> bool {
    0 <= p.0 < size && 0 <= p.1 < size
}

/// Record a point once.
pub open spec fn dedup_push(acc: Seq<(i32, i32)>, p: (i32, i32)) -> Seq<(i32, i32)> {
    if acc.contains(p) {
        acc
    } else {
        acc.push(p)
    }
}

/// The mirror antinode of the ordered antenna pair, when it lies on the
/// grid.
pub open spec fn antinode_opt(l: (i32, i32), r: (i32, i32), size: int) -> Option<(i32, i32)> {
    if valid_pt((2 * l.0 - r.0, 2 * l.1 - r.1), size) && size <= 0x8000_0000 {
        Some(((2 * l.0 - r.0) as i32, (2 * l.1 - r.1) as i32))
    } else {
        None
    }
}

/// Whether indices `i` and `j` form an antenna pair: same frequency,
/// different position.
pub open spec fn is_pair(ants: Seq<(u8, (i32, i32))>, i: int, j: int) -> bool {
    ants[i].0 == ants[j].0 && ants[i].1 != ants[j].1
}

/// The antinodes recorded for the pairs `(i, j)` from `j` on.
pub open spec fn part1_inner(
    ants: Seq<(u8, (i32, i32))>,
    size: int,
    i: int,
    j: int,
    acc: Seq<(i32, i32)>,
) -> Seq<(i32, i32)>
    decreases ants.len() - j,
{
    if j < 0 || j >= ants.len() {
        acc
    } else {
        let acc2 = if is_pair(ants, i, j) {
            let a1 = match antinode_opt(ants[i].1, ants[j].1, size) {
                Some(p) => dedup_push(acc, p),
                None => acc,
            };
            match antinode_opt(ants[j].1, ants[i].1, size) {
                Some(p) => dedup_push(a1, p),
                None => a1,
            }
        } else {
            acc
        };
        part1_inner(ants, size, i, j + 1, acc2)
    }
}

pub open spec fn part1_outer(
    ants: Seq<(u8, (i32, i32))>,
    size: int,
    i: int,
    acc: Seq<(i32, i32)>,
) -> Seq<(i32, i32)>
    decreases ants.len() - i,
{
    if i < 0 || i >= ants.len() {
        acc
    } else {
        part1_outer(ants, size, i + 1, part1_inner(ants, size, i, 0, acc))
    }
}

/// The first answer: the number of distinct valid mirror antinodes.
pub open spec fn part1_spec(ants: Seq<(u8, (i32, i32))>, size: int) -> nat {
    part1_outer(ants, size, 0, seq![]).len()
}

/// The ray of antinodes from `p` stepping by `d`, recorded while on the
/// grid, up to `fuel` steps.
pub open spec fn ray_rec(
    p: (int, int),
    d: (int, int),
    size: int,
    acc: Seq<(i32, i32)>,
    fuel: nat,
) -> Seq<(i32, i32)>
    decreases fuel,
{
    if fuel == 0 || !valid_pt(p, size) || size > 0x8000_0000 {
        acc
    } else {
        ray_rec(
            (p.0 + d.0, p.1 + d.1),
            d,
            size,
            dedup_push(acc, (p.0 as i32, p.1 as i32)),
            (fuel - 1) as nat,
        )
    }
}

/// The antinode rays recorded for the pairs `(i, j)` from `j` on.
pub open spec fn part2_inner(
    ants: Seq<(u8, (i32, i32))>,
    size: int,
    i: int,
    j: int,
    acc: Seq<(i32, i32)>,
) -> Seq<(i32, i32)>
    decreases ants.len() - j,
{
    if j < 0 || j >= ants.len() {
        acc
    } else {
        let acc2 = if is_pair(ants, i, j) {
            let l = ants[i].1;
            let r = ants[j].1;
            let a1 = ray_rec(
                (l.0 as int, l.1 as int),
                (l.0 - r.0, l.1 - r.1),
                size,
                acc,
                (size + 2) as nat,
            );
            ray_rec((r.0 as int, r.1 as int), (r.0 - l.0, r.1 - l.1), size, a1, (size + 2) as nat)
        } else {
            acc
        };
        part2_inner(ants, size, i, j + 1, acc2)
    }
}

pub open spec fn part2_outer(
    ants: Seq<(u8, (i32, i32))>,
    size: int,
    i: int,
    acc: Seq<(i32, i32)>,
) -> Seq<(i32, i32)>
    decreases ants.len() - i,
{
    if i < 0 || i >= ants.len() {
        acc
    } else {
        part2_outer(ants, size, i + 1, part2_inner(ants, size, i, 0, acc))
    }
}

/// The second answer: the number of distinct grid points on antinode rays.
pub open spec fn part2_spec(ants: Seq<(u8, (i32, i32))>, size: int) -> nat {
    part2_outer(ants, size, 0, seq![]).len()
}

/// Record a point unless it is already present.
#[verifier::loop_isolation(false)]
fn push_unique(acc: &mut Vec<(i32, i32)>, p: (i32, i32))
    ensures
        final(acc)@ == dedup_push(old(acc)@, p),
{
    let mut i: usize = 0;
    while i < acc.len()
        invariant
            i <= acc@.len(),
            acc@ == old(acc)@,
            forall|j: int| 0 <= j < i ==> acc@[j] != p,
        decreases acc@.len() - i,
    {
        let q = acc[i];
        if q.0 == p.0 && q.1 == p.1 {
            proof {
                assert(acc@[i as int] == p);
                assert(acc@.contains(p));
            }
            return ;
        }
        i = i + 1;
    }
    proof {
        assert(!acc@.contains(p));
    }
    acc.push(p);
}

/// The grid size fits the grid: it is at most the longest line.
proof fn lemma_grid_size_bound(ls: Seq<Seq<u8>>, cap: int)
    requires
        forall|i: int| 0 <= i < ls.len() ==> (#[trigger] ls[i]).len() <= cap,
        0 <= cap,
    ensures
        spec_grid_size(ls) matches Some(sz) ==> 0 <= sz <= cap,
    decreases ls.len(),
{
    broadcast use vstd::seq_lib::group_filter_ensures;

    if ls.len() > 0 {
        if ls[0].len() == 0 {
            assert forall|i: int|
                0 <= i < ls.drop_first().len() implies (#[trigger] ls.drop_first()[i]).len()
                <= cap by {
                assert(ls.drop_first()[i] == ls[i + 1]);
            }
            lemma_grid_size_bound(ls.drop_first(), cap);
        } else {
            ls[0].lemma_filter_len(not_ws_fn());
        }
    }
}

/// Count the distinct valid mirror antinodes of all same-frequency
/// antenna pairs.
#[verifier::loop_isolation(false)]
pub fn part_1(input: &str) -> (r: Option<usize>)
    requires
        input.spec_bytes().len() < 0x8000_0000,
    ensures
        r is Some <==> spec_parse(input.spec_bytes()) is Some,
        r matches Some(v) ==> spec_parse(input.spec_bytes()) matches Some(p) && v == part1_spec(
            p.0,
            p.1,
        ),
{
    let (ants, size) = match parse_input(input) {
        Some(v) => v,
        None => {
            return None;
        },
    };
    let ghost av = ants@;
    let ghost sz = size as int;
    proof {
        crate::parsing::lemma_spec_lines_bounds(input.spec_bytes());
        lemma_grid_size_bound(
            crate::parsing::spec_lines(input.spec_bytes()),
            input.spec_bytes().len() as int,
        );
        assert(sz < 0x8000_0000);
    }
    let mut acc: Vec<(i32, i32)> = Vec::new();
    let mut i: usize = 0;
    while i < ants.len()
        invariant
            i <= av.len(),
            part1_outer(av, sz, 0, seq![]) == part1_outer(av, sz, i as int, acc@),
        decreases av.len() - i,
    {
        let mut j: usize = 0;
        while j < ants.len()
            invariant
                j <= av.len(),
                i < av.len(),
                part1_outer(av, sz, 0, seq![]) == part1_outer(
                    av,
                    sz,
                    i as int + 1,
                    part1_inner(av, sz, i as int, j as int, acc@),
                ),
            decreases av.len() - j,
        {
            let (fa, pa) = ants[i];
            let (fb, pb) = ants[j];
            if fa == fb && !(pa.0 == pb.0 && pa.1 == pb.1) {
                let a10: i64 = 2 * (pa.0 as i64) - pb.0 as i64;
                let a11: i64 = 2 * (pa.1 as i64) - pb.1 as i64;
                if 0 <= a10 && a10 < size as i64 && 0 <= a11 && a11 < size as i64 {
                    push_unique(&mut acc, (a10 as i32, a11 as i32));
                }
                let a20: i64 = 2 * (pb.0 as i64) - pa.0 as i64;
                let a21: i64 = 2 * (pb.1 as i64) - pa.1 as i64;
                if 0 <= a20 && a20 < size as i64 && 0 <= a21 && a21 < size as i64 {
                    push_unique(&mut acc, (a20 as i32, a21 as i32));
                }
            }
            j = j + 1;
        }
        i = i + 1;
    }
    Some(acc.len())
}

/// Count the distinct grid points on the rays of all same-frequency
/// antenna pairs.
#[verifier::loop_isolation(false)]
pub fn part_2(input: &str) -> (r: Option<usize>)
    requires
        input.spec_bytes().len() < 0x8000_0000,
    ensures
        r is Some <==> spec_parse(input.spec_bytes()) is Some,
        r matches Some(v) ==> spec_parse(input.spec_bytes()) matches Some(p) && v == part2_spec(
            p.0,
            p.1,
        ),
{
    let (ants, size) = match parse_input(input) {
        Some(v) => v,
        None => {
            return None;
        },
    };
    let ghost av = ants@;
    let ghost sz = size as int;
    proof {
        crate::parsing::lemma_spec_lines_bounds(input.spec_bytes());
        lemma_grid_size_bound(
            crate::parsing::spec_lines(input.spec_bytes()),
            input.spec_bytes().len() as int,
        );
        assert(sz < 0x8000_0000);
    }
    let mut acc: Vec<(i32, i32)> = Vec::new();
    let mut i: usize = 0;
    while i < ants.len()
        invariant
            i <= av.len(),
            part2_outer(av, sz, 0, seq![]) == part2_outer(av, sz, i as int, acc@),
        decreases av.len() - i,
    {
        let mut j: usize = 0;
        while j < ants.len()
            invariant
                j <= av.len(),
                i < av.len(),
                part2_outer(av, sz, 0, seq![]) == part2_outer(
                    av,
                    sz,
                    i as int + 1,
                    part2_inner(av, sz, i as int, j as int, acc@),
                ),
            decreases av.len() - j,
        {
            let (fa, pa) = ants[i];
            let (fb, pb) = ants[j];
            if fa == fb && !(pa.0 == pb.0 && pa.1 == pb.1) {
                walk_ray(&mut acc, pa, (pa.0 as i64 - pb.0 as i64, pa.1 as i64 - pb.1 as i64), size);
                walk_ray(&mut acc, pb, (pb.0 as i64 - pa.0 as i64, pb.1 as i64 - pa.1 as i64), size);
            }
            j = j + 1;
        }
        i = i + 1;
    }
    Some(acc.len())
}

/// Record the grid points of one ray.
#[verifier::loop_isolation(false)]
fn walk_ray(acc: &mut Vec<(i32, i32)>, start: (i32, i32), d: (i64, i64), size: usize)
    requires
        size <= 0x8000_0000,
        -0x1_0000_0000 <= d.0 <= 0x1_0000_0000,
        -0x1_0000_0000 <= d.1 <= 0x1_0000_0000,
    ensures
        final(acc)@ == ray_rec(
            (start.0 as int, start.1 as int),
            (d.0 as int, d.1 as int),
            size as int,
            old(acc)@,
            (size + 2) as nat,
        ),
{
    let mut px: i64 = start.0 as i64;
    let mut py: i64 = start.1 as i64;
    let mut fuel: usize = size + 2;
    while fuel > 0 && px >= 0 && px < size as i64 && py >= 0 && py < size as i64
        invariant
            -0x1_0000_0000_0000i64 <= px <= 0x1_0000_0000_0000i64,
            -0x1_0000_0000_0000i64 <= py <= 0x1_0000_0000_0000i64,
            fuel <= size + 2,
            ray_rec(
                (start.0 as int, start.1 as int),
                (d.0 as int, d.1 as int),
                size as int,
                old(acc)@,
                (size + 2) as nat,
            ) == ray_rec(
                (px as int, py as int),
                (d.0 as int, d.1 as int),
                size as int,
                acc@,
                fuel as nat,
            ),
        decreases fuel,
    {
        push_unique(acc, (px as i32, py as i32));
        px = px + d.0;
        py = py + d.1;
        fuel = fuel - 1;
    }
}

} // verus!
