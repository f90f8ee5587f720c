//! Paired location lists: the first answer sums the absolute differences
//! of the two lists after sorting each, the second weights every left
//! entry by how often it occurs in the right list.

use vstd::prelude::*;
use vstd::relations::{sorted_by, total_ordering};
use vstd::seq_lib::lemma_sorted_unique;

verus! {

broadcast use vstd::seq_lib::group_to_multiset_ensures;

/// The ordering the lists are sorted by.
pub open spec fn i32_le(a: i32, b: i32) -> bool {
    a <= b
}

/// The ordering as a function value, shared by every use.
pub open spec fn i32_leq_fn() -> spec_fn(i32, i32) -> bool {
    |a: i32, b: i32| i32_le(a, b)
}

pub proof fn lemma_i32_leq_total()
    ensures
        total_ordering(i32_leq_fn()),
{
}

/// The sorted version of a list.
pub open spec fn sorted_spec(s: Seq<i32>) -> Seq<i32> {
    s.sort_by(i32_leq_fn())
}

/// Whether one line parses as a pair: at least two whitespace-separated
/// tokens, the first two signed 32-bit numbers.
pub open spec fn line_pair(l: Seq<u8>) -> Option<(i32, i32)> {
    let toks = crate::parsing::spec_ws_tokens(l);
    if toks.len() >= 2 && (crate::parsing::spec_int(toks[0]) matches Some(a) && i32::MIN <= a
        <= i32::MAX) && (crate::parsing::spec_int(toks[1]) matches Some(b) && i32::MIN <= b
        <= i32::MAX) {
        Some(
            (
                (crate::parsing::spec_int(toks[0])->Some_0) as i32,
                (crate::parsing::spec_int(toks[1])->Some_0) as i32,
            ),
        )
    } else {
        None
    }
}

/// The pairs of the input: one per non-empty line.
pub open spec fn pairs_of_lines(ls: Seq<Seq<u8>>) -> Option<Seq<(i32, i32)>>
    decreases ls.len(),
{
    if ls.len() == 0 {
        Some(seq![])
    } else if ls[0].len() == 0 {
        pairs_of_lines(ls.drop_first())
    } else {
        match line_pair(ls[0]) {
            None => None,
            Some(p) => match pairs_of_lines(ls.drop_first()) {
                None => None,
                Some(rest) => Some(seq![p] + rest),
            },
        }
    }
}

/// The parse of a whole input text.
pub open spec fn spec_parse(s: Seq<u8>) -> Option<Seq<(i32, i32)>> {
    pairs_of_lines(crate::parsing::spec_lines(s))
}

/// There is at most one pair per line.
pub proof fn lemma_pairs_len(ls: Seq<Seq<u8>>)
    ensures
        pairs_of_lines(ls) matches Some(p) ==> p.len() <= ls.len(),
    decreases ls.len(),
{
    if ls.len() > 0 {
        lemma_pairs_len(ls.drop_first());
    }
}

/// Parse the input into the two location lists.
#[verifier::loop_isolation(false)]
pub fn parse_input(input: &String) -> (r: Option<(Vec<i32>, Vec<i32>)>)
    ensures
        r is Some <==> spec_parse(crate::parsing::str_bytes(input@)) is Some,
        r matches Some(lr) ==> spec_parse(crate::parsing::str_bytes(input@)) matches Some(p)
            && lr.0@ == p.map_values(|q: (i32, i32)| q.0) && lr.1@ == p.map_values(
            |q: (i32, i32)| q.1,
        ),
{
    let bytes = input.as_str().as_bytes();
    proof {
        assert(bytes@ == crate::parsing::str_bytes(input@));
    }
    let ls = crate::parsing::lines_bytes(bytes);
    let ghost lsv = crate::parsing::spec_lines(crate::parsing::str_bytes(input@));
    let mut left: Vec<i32> = Vec::new();
    let mut right: Vec<i32> = Vec::new();
    let mut li: usize = 0;
    proof {
        assert(lsv.skip(0) =~= lsv);
        if pairs_of_lines(lsv) is Some {
            let rest = pairs_of_lines(lsv)->Some_0;
            assert(Seq::<(i32, i32)>::empty() + rest =~= rest);
        }
    }
    while li < ls.len()
        invariant
            li <= ls@.len(),
            left@.len() == right@.len(),
            match pairs_of_lines(lsv.skip(li as int)) {
                Some(rest) => {
                    &&& pairs_of_lines(lsv) is Some
                    &&& {
                        let whole = pairs_of_lines(lsv)->Some_0;
                        &&& whole =~= whole.take(left@.len() as int) + rest
                        &&& left@ =~= whole.take(left@.len() as int).map_values(
                            |q: (i32, i32)| q.0,
                        )
                        &&& right@ =~= whole.take(left@.len() as int).map_values(
                            |q: (i32, i32)| q.1,
                        )
                    }
                },
                None => pairs_of_lines(lsv) is None,
            },
        decreases ls@.len() - li,
    {
        proof {
            assert(lsv.skip(li as int)[0] == lsv[li as int]);
            assert(lsv.skip(li as int).drop_first() =~= lsv.skip(li as int + 1));
            assert(ls.deep_view()[li as int] == ls@[li as int]@);
        }
        let line = &ls[li];
        if line.len() > 0 {
            let toks = crate::parsing::ws_tokens(line.as_slice());
            let ghost toks_v = crate::parsing::spec_ws_tokens(ls@[li as int]@);
            if toks.len() < 2 {
                return None;
            }
            proof {
                assert(toks.deep_view()[0] == toks@[0]@);
                assert(toks.deep_view()[1] == toks@[1]@);
            }
            let a = match crate::parsing::parse_i32(toks[0].as_slice()) {
                Some(a) => a,
                None => {
                    return None;
                },
            };
            let b = match crate::parsing::parse_i32(toks[1].as_slice()) {
                Some(b) => b,
                None => {
                    return None;
                },
            };
            let ghost pre_len = left@.len() as int;
            left.push(a);
            right.push(b);
            proof {
                assert(line_pair(lsv[li as int]) == Some((a, b)));
                if pairs_of_lines(lsv.skip(li as int + 1)) is Some {
                    let whole = pairs_of_lines(lsv)->Some_0;
                    let rest = pairs_of_lines(lsv.skip(li as int + 1))->Some_0;
                    let prest = pairs_of_lines(lsv.skip(li as int))->Some_0;
                    assert(prest =~= seq![(a, b)] + rest);
                    assert(whole.take(pre_len + 1) =~= whole.take(pre_len).push((a, b)));
                    assert(left@ =~= whole.take(pre_len + 1).map_values(|q: (i32, i32)| q.0));
                    assert(right@ =~= whole.take(pre_len + 1).map_values(|q: (i32, i32)| q.1));
                    assert(whole =~= whole.take(pre_len + 1) + rest);
                }
            }
        }
        li = li + 1;
    }
    proof {
        assert(lsv.skip(li as int) =~= Seq::<Seq<u8>>::empty());
        if pairs_of_lines(lsv) is Some {
            let whole = pairs_of_lines(lsv)->Some_0;
            assert(whole.take(left@.len() as int) =~= whole);
        }
    }
    Some((left, right))
}

/// Sort a list ascending by insertion.
#[verifier::loop_isolation(false)]
pub fn sorted(v: &Vec<i32>) -> (r: Vec<i32>)
    ensures
        r@ == sorted_spec(v@),
        r@.len() == v@.len(),
{
    let mut out: Vec<i32> = Vec::new();
    let mut i: usize = 0;
    proof {
        assert(v@.take(0) =~= Seq::<i32>::empty());
        assert(out@.to_multiset() =~= v@.take(0).to_multiset());
    }
    while i < v.len()
        invariant
            i <= v@.len(),
            out@.len() == i,
            out@.to_multiset() == v@.take(i as int).to_multiset(),
            forall|p: int, q: int| 0 <= p < q < out@.len() ==> out@[p] <= out@[q],
        decreases v@.len() - i,
    {
        let ghost pre = out@;
        let x = v[i];
        let mut k: usize = 0;
        while k < out.len() && out[k] < x
            invariant
                k <= out@.len(),
                forall|m: int| 0 <= m < k ==> out@[m] < x,
            decreases out@.len() - k,
        {
            k = k + 1;
        }
        out.insert(k, x);
        proof {
            assert(out@ == pre.insert(k as int, x));
            assert(out@.to_multiset() == pre.to_multiset().insert(x));
            assert(v@.take(i as int + 1) =~= v@.take(i as int).push(x));
            assert(v@.take(i as int + 1).to_multiset() == v@.take(i as int).to_multiset().insert(
                x,
            ));
            pre.insert_ensures(k as int, x);
            assert forall|p: int, q: int| 0 <= p < q < out@.len() implies out@[p] <= out@[q] by {
                if p < k {
                    assert(out@[p] == pre[p]);
                }
                if p > k {
                    assert(out@[p] == pre[p - 1]);
                }
                if q < k {
                    assert(out@[q] == pre[q]);
                }
                if q > k {
                    assert(out@[q] == pre[q - 1]);
                }
                if p == k {
                    assert(out@[p] == x);
                    assert(!(pre[k as int] < x));
                }
                if q == k {
                    assert(out@[q] == x);
                }
            }
        }
        i = i + 1;
    }
    proof {
        assert(v@.take(v@.len() as int) =~= v@);
        lemma_i32_leq_total();
        assert forall|p: int, q: int| 0 <= p < q < out@.len() implies i32_leq_fn()(
            out@[p],
            out@[q],
        ) by {
            assert(out@[p] <= out@[q]);
        }
        assert(sorted_by(out@, i32_leq_fn()));
        v@.lemma_sort_by_ensures(i32_leq_fn());
        lemma_sorted_unique(out@, sorted_spec(v@), i32_leq_fn());
        assert(out@ =~= sorted_spec(v@));
        assert(sorted_spec(v@).to_multiset().len() == sorted_spec(v@).len());
    }
    out
}

/// The sum of absolute differences of two lists, paired by position up to
/// the shorter length.
pub open spec fn abs_diff_sum(a: Seq<i32>, b: Seq<i32>) -> int
    decreases a.len(),
{
    if a.len() == 0 || b.len() == 0 {
        0
    } else {
        (if a[0] >= b[0] {
            a[0] - b[0]
        } else {
            b[0] - a[0]
        }) + abs_diff_sum(a.drop_first(), b.drop_first())
    }
}

pub proof fn lemma_abs_diff_sum_nonneg(a: Seq<i32>, b: Seq<i32>)
    ensures
        abs_diff_sum(a, b) >= 0,
    decreases a.len(),
{
    if a.len() > 0 && b.len() > 0 {
        lemma_abs_diff_sum_nonneg(a.drop_first(), b.drop_first());
    }
}

/// The first answer: the sum of absolute differences of the two sorted
/// lists.
pub open spec fn part1_spec(p: Seq<(i32, i32)>) -> int {
    abs_diff_sum(
        sorted_spec(p.map_values(|q: (i32, i32)| q.0)),
        sorted_spec(p.map_values(|q: (i32, i32)| q.1)),
    )
}

/// Sort both lists and sum the absolute pairwise differences.
#[verifier::loop_isolation(false)]
pub fn part_1(input: &String) -> (r: Option<i32>)
    requires
        spec_parse(crate::parsing::str_bytes(input@)) matches Some(p) ==> part1_spec(p)
            <= i32::MAX,
    ensures
        r is Some <==> spec_parse(crate::parsing::str_bytes(input@)) is Some,
        r matches Some(v) ==> spec_parse(crate::parsing::str_bytes(input@)) matches Some(p) && v
            == part1_spec(p),
{
    let (left, right) = match parse_input(input) {
        Some(lr) => lr,
        None => {
            return None;
        },
    };
    let ls = sorted(&left);
    let rs = sorted(&right);
    let ghost lv = ls@;
    let ghost rv = rs@;
    let mut acc: i64 = 0;
    let mut i: usize = 0;
    proof {
        assert(lv.skip(0) =~= lv);
        assert(rv.skip(0) =~= rv);
    }
    while i < ls.len() && i < rs.len()
        invariant
            i <= lv.len(),
            i <= rv.len(),
            acc >= 0,
            acc + abs_diff_sum(lv.skip(i as int), rv.skip(i as int)) == abs_diff_sum(lv, rv),
        decreases lv.len() - i,
    {
        proof {
            assert(lv.skip(i as int)[0] == lv[i as int]);
            assert(rv.skip(i as int)[0] == rv[i as int]);
            assert(lv.skip(i as int).drop_first() =~= lv.skip(i as int + 1));
            assert(rv.skip(i as int).drop_first() =~= rv.skip(i as int + 1));
            lemma_abs_diff_sum_nonneg(lv.skip(i as int + 1), rv.skip(i as int + 1));
            lemma_abs_diff_sum_nonneg(lv, rv);
        }
        let a = ls[i];
        let b = rs[i];
        let d: i64 = if a >= b {
            a as i64 - b as i64
        } else {
            b as i64 - a as i64
        };
        acc = acc + d;
        i = i + 1;
    }
    proof {
        if i >= lv.len() {
            assert(lv.skip(i as int) =~= Seq::<i32>::empty());
        } else {
            assert(rv.skip(i as int) =~= Seq::<i32>::empty());
        }
    }
    Some(acc as i32)
}

/// How many times `x` occurs in `s`.
pub open spec fn count_of(s: Seq<i32>, x: i32) -> nat
    decreases s.len(),
{
    if s.len() == 0 {
        0
    } else {
        (if s[0] == x {
            1nat
        } else {
            0nat
        }) + count_of(s.drop_first(), x)
    }
}

/// The second answer: each left entry weighted by its number of
/// occurrences in the right list.
pub open spec fn occ_sum(l: Seq<i32>, r: Seq<i32>) -> int
    decreases l.len(),
{
    if l.len() == 0 {
        0
    } else {
        l[0] * count_of(r, l[0]) + occ_sum(l.drop_first(), r)
    }
}

pub open spec fn part2_spec(p: Seq<(i32, i32)>) -> int {
    occ_sum(p.map_values(|q: (i32, i32)| q.0), p.map_values(|q: (i32, i32)| q.1))
}

pub proof fn lemma_count_of_le(s: Seq<i32>, x: i32)
    ensures
        count_of(s, x) <= s.len(),
    decreases s.len(),
{
    if s.len() > 0 {
        lemma_count_of_le(s.drop_first(), x);
    }
}

/// Weight every left entry by its occurrence count on the right, and sum.
#[verifier::loop_isolation(false)]
pub fn part_2(input: &String) -> (r: Option<i32>)
    requires
        crate::parsing::str_bytes(input@).len() < 0x8000_0000,
        spec_parse(crate::parsing::str_bytes(input@)) matches Some(p) ==> i32::MIN <= part2_spec(
            p,
        ) <= i32::MAX,
    ensures
        r is Some <==> spec_parse(crate::parsing::str_bytes(input@)) is Some,
        r matches Some(v) ==> spec_parse(crate::parsing::str_bytes(input@)) matches Some(p) && v
            == part2_spec(p),
{
    let (left, right) = match parse_input(input) {
        Some(lr) => lr,
        None => {
            return None;
        },
    };
    proof {
        crate::parsing::lemma_spec_lines_bounds(crate::parsing::str_bytes(input@));
        lemma_pairs_len(crate::parsing::spec_lines(crate::parsing::str_bytes(input@)));
        assert(left@.len() < 0x8000_0001);
        assert(right@.len() < 0x8000_0001);
    }
    let ghost lv = left@;
    let ghost rv = right@;
    let mut acc: i128 = 0;
    let mut i: usize = 0;
    proof {
        assert(lv.skip(0) =~= lv);
    }
    while i < left.len()
        invariant
            i <= lv.len(),
            -0x8000_0000_0000_0000i128 * (i as i128) <= acc <= 0x8000_0000_0000_0000i128 * (
            i as i128),
            acc + occ_sum(lv.skip(i as int), rv) == occ_sum(lv, rv),
        decreases lv.len() - i,
    {
        proof {
            assert(lv.skip(i as int)[0] == lv[i as int]);
            assert(lv.skip(i as int).drop_first() =~= lv.skip(i as int + 1));
        }
        let x = left[i];
        let mut c: usize = 0;
        let mut j: usize = 0;
        proof {
            assert(rv.skip(0) =~= rv);
        }
        while j < right.len()
            invariant
                j <= rv.len(),
                c <= j,
                c + count_of(rv.skip(j as int), x) == count_of(rv, x),
            decreases rv.len() - j,
        {
            proof {
                assert(rv.skip(j as int)[0] == rv[j as int]);
                assert(rv.skip(j as int).drop_first() =~= rv.skip(j as int + 1));
            }
            if right[j] == x {
                c = c + 1;
            }
            j = j + 1;
        }
        proof {
            assert(rv.skip(rv.len() as int) =~= Seq::<i32>::empty());
            lemma_count_of_le(rv, x);
        }
        proof {
            assert(-0x8000_0000_0000_0000i128 <= (x as i128) * (c as i128)
                <= 0x8000_0000_0000_0000i128) by (nonlinear_arith)
                requires
                    -0x8000_0000 <= x as i128 <= 0x7fff_ffff,
                    0 <= c as i128 <= 0x8000_0001,
            ;
            assert(0x8000_0000_0000_0000i128 * ((i + 1) as i128) == 0x8000_0000_0000_0000i128 * (
            i as i128) + 0x8000_0000_0000_0000i128) by (nonlinear_arith);
            assert(0x8000_0000_0000_0000i128 * ((i + 1) as i128) <= 0x8000_0000_0000_0000i128
                * 0x8000_0001i128) by (nonlinear_arith)
                requires
                    0 <= (i + 1) as i128 <= 0x8000_0001i128,
            ;
        }
        let p: i128 = (x as i128) * (c as i128);
        acc = acc + p;
        i = i + 1;
    }
    proof {
        assert(lv.skip(lv.len() as int) =~= Seq::<i32>::empty());
    }
    Some(acc as i32)
}

} // verus!
