//! Corrupted instruction memory: scan for `mul(a,b)` instructions with one
//! to three digits per operand and sum the products.  The second answer
//! ignores instructions inside a span from `don't()` to the next `do()`.

use vstd::prelude::*;
use vstd::string::StringSliceAdditionalSpecFns;

verus! {

/// The length of the digit run at `p`, capped at three.
pub open spec fn digit_run3(s: Seq<u8>, p: int) -> int {
    if 0 <= p < s.len() && crate::parsing::is_digit(s[p]) {
        if p + 1 < s.len() && crate::parsing::is_digit(s[p + 1]) {
            if p + 2 < s.len() && crate::parsing::is_digit(s[p + 2]) {
                3
            } else {
                2
            }
        } else {
            1
        }
    } else {
        0
    }
}

/// The `mul(a,b)` instruction starting at `p`: its two operand values and
/// its end position.  Each operand is one to three digits, read greedily,
/// immediately followed by the delimiter.
pub open spec fn mul_match(s: Seq<u8>, p: int) -> Option<(nat, nat, int)> {
    if 0 <= p && p + 4 <= s.len() && s[p] == 0x6d && s[p + 1] == 0x75 && s[p + 2] == 0x6c && s[p
        + 3] == 0x28 {
        let c1 = digit_run3(s, p + 4);
        if c1 >= 1 && p + 4 + c1 < s.len() && s[p + 4 + c1] == 0x2c {
            let c2 = digit_run3(s, p + 5 + c1);
            if c2 >= 1 && p + 5 + c1 + c2 < s.len() && s[p + 5 + c1 + c2] == 0x29 {
                Some(
                    (
                        crate::parsing::digits_val(s.subrange(p + 4, p + 4 + c1)),
                        crate::parsing::digits_val(s.subrange(p + 5 + c1, p + 5 + c1 + c2)),
                        p + 6 + c1 + c2,
                    ),
                )
            } else {
                None
            }
        } else {
            None
        }
    } else {
        None
    }
}

/// The sum of the products of all instructions from `p` on, leftmost and
/// non-overlapping.
pub open spec fn scan1(s: Seq<u8>, p: int) -> nat
    decreases s.len() - p,
{
    if p < 0 || p >= s.len() {
        0
    } else {
        match mul_match(s, p) {
            Some((a, b, e)) => {
                let q = if p < e <= s.len() {
                    e
                } else {
                    p + 1
                };
                a * b + scan1(s, q)
            },
            None => scan1(s, p + 1),
        }
    }
}

/// The first answer over a whole input.
pub open spec fn part1_spec(s: Seq<u8>) -> nat {
    scan1(s, 0)
}

/// A `do()` at `q`.
pub open spec fn do_at(s: Seq<u8>, q: int) -> bool {
    0 <= q && q + 4 <= s.len() && s[q] == 0x64 && s[q + 1] == 0x6f && s[q + 2] == 0x28 && s[q + 3]
        == 0x29
}

/// A `don't()` at `q`.
pub open spec fn dont_at(s: Seq<u8>, q: int) -> bool {
    0 <= q && q + 7 <= s.len() && s[q] == 0x64 && s[q + 1] == 0x6f && s[q + 2] == 0x6e && s[q + 3]
        == 0x27 && s[q + 4] == 0x74 && s[q + 5] == 0x28 && s[q + 6] == 0x29
}

/// The first `do()` at or after `q`.
pub open spec fn find_do(s: Seq<u8>, q: int) -> Option<int>
    decreases s.len() - q,
{
    if q < 0 || q >= s.len() {
        None
    } else if do_at(s, q) {
        Some(q)
    } else {
        find_do(s, q + 1)
    }
}

/// The disabled spans from `p` on: each runs from a `don't()` to the end
/// of the next `do()` that follows at least one byte later.
pub open spec fn disabled_from(s: Seq<u8>, p: int) -> Seq<(int, int)>
    decreases s.len() - p,
{
    if p < 0 || p >= s.len() {
        seq![]
    } else if dont_at(s, p) {
        match find_do(s, p + 8) {
            Some(q) => {
                let e = q + 4;
                if p < e <= s.len() {
                    seq![(p, e)] + disabled_from(s, e)
                } else {
                    seq![(p, e)]
                }
            },
            None => seq![],
        }
    } else {
        disabled_from(s, p + 1)
    }
}

/// Whether position `p` lies in a disabled span.
pub open spec fn in_disabled(s: Seq<u8>, p: int) -> bool {
    exists|k: int|
        0 <= k < disabled_from(s, 0).len() && (#[trigger] disabled_from(s, 0)[k]).0 <= p
            < disabled_from(s, 0)[k].1
}

/// The sum of the products of the instructions that start outside every
/// disabled span.
pub open spec fn scan2(s: Seq<u8>, p: int) -> nat
    decreases s.len() - p,
{
    if p < 0 || p >= s.len() {
        0
    } else {
        match mul_match(s, p) {
            Some((a, b, e)) => {
                let q = if p < e <= s.len() {
                    e
                } else {
                    p + 1
                };
                (if in_disabled(s, p) {
                    0
                } else {
                    a * b
                }) + scan2(s, q)
            },
            None => scan2(s, p + 1),
        }
    }
}

/// The second answer over a whole input.
pub open spec fn part2_spec(s: Seq<u8>) -> nat {
    scan2(s, 0)
}

/// Read the instruction at `p`, if any.
#[verifier::loop_isolation(false)]
fn mul_at(s: &[u8], p: usize) -> (r: Option<(u64, u64, usize)>)
    requires
        p < s@.len(),
    ensures
        r is Some <==> mul_match(s@, p as int) is Some,
        r matches Some(t) ==> mul_match(s@, p as int) == Some(
            (t.0 as nat, t.1 as nat, t.2 as int),
        ) && p < t.2 <= s@.len() && t.0 <= 999 && t.1 <= 999,
{
    if !(s.len() - p >= 4 && s[p] == 0x6d && s[p + 1] == 0x75 && s[p + 2] == 0x6c && s[p + 3]
        == 0x28) {
        return None;
    }
    let c1 = run3(s, p + 4);
    if !(c1 >= 1 && c1 < s.len() - (p + 4) && s[p + 4 + c1] == 0x2c) {
        return None;
    }
    let c2 = run3(s, p + 5 + c1);
    if !(c2 >= 1 && c2 < s.len() - (p + 5 + c1) && s[p + 5 + c1 + c2] == 0x29) {
        return None;
    }
    proof {
        lemma_run3_val(s@, p as int + 4);
        lemma_run3_val(s@, p as int + 5 + c1);
    }
    let sa = vstd::slice::slice_subrange(s, p + 4, p + 4 + c1);
    let sb = vstd::slice::slice_subrange(s, p + 5 + c1, p + 5 + c1 + c2);
    let a = match crate::parsing::parse_digits_u64(sa) {
        Some(a) => a,
        None => {
            proof {
                assert(false);
            }
            return None;
        },
    };
    let b = match crate::parsing::parse_digits_u64(sb) {
        Some(b) => b,
        None => {
            proof {
                assert(false);
            }
            return None;
        },
    };
    Some((a, b, p + 6 + c1 + c2))
}

/// The length of the digit run at `p`, capped at three.
fn run3(s: &[u8], p: usize) -> (r: usize)
    ensures
        r == digit_run3(s@, p as int),
        r <= 3,
{
    if p < s.len() && s[p] >= 0x30 && s[p] <= 0x39 {
        if p + 1 < s.len() && s[p + 1] >= 0x30 && s[p + 1] <= 0x39 {
            if p + 2 < s.len() && s[p + 2] >= 0x30 && s[p + 2] <= 0x39 {
                3
            } else {
                2
            }
        } else {
            1
        }
    } else {
        0
    }
}

/// A digit run of at most three digits reads below 1000.
proof fn lemma_run3_val(s: Seq<u8>, p: int)
    requires
        digit_run3(s, p) >= 1,
    ensures
        crate::parsing::is_digits(s.subrange(p, p + digit_run3(s, p))),
        crate::parsing::digits_val(s.subrange(p, p + digit_run3(s, p))) <= 999,
{
    let c = digit_run3(s, p);
    let sub = s.subrange(p, p + c);
    assert(crate::parsing::is_digits(sub));
    reveal_with_fuel(crate::parsing::digits_val, 4);
    if c == 1 {
        assert(sub.drop_last() =~= Seq::<u8>::empty());
    } else if c == 2 {
        assert(sub.drop_last().drop_last() =~= Seq::<u8>::empty());
        assert(sub.drop_last() =~= sub.take(1));
    } else {
        assert(sub.drop_last().drop_last().drop_last() =~= Seq::<u8>::empty());
    }
}

/// Sum the products of all `mul` instructions.
#[verifier::loop_isolation(false)]
pub fn part_1(input: &String) -> (r: i64)
    requires
        part1_spec(crate::parsing::str_bytes(input@)) <= i64::MAX,
    ensures
        r == part1_spec(crate::parsing::str_bytes(input@)),
{
    let s = input.as_str().as_bytes();
    proof {
        assert(s@ == crate::parsing::str_bytes(input@));
    }
    let mut acc: i64 = 0;
    let mut p: usize = 0;
    while p < s.len()
        invariant
            p <= s@.len(),
            acc >= 0,
            acc + scan1(s@, p as int) == scan1(s@, 0),
        decreases s@.len() - p,
    {
        match mul_at(s, p) {
            Some((a, b, e)) => {
                acc = acc + (a * b) as i64;
                p = e;
            },
            None => {
                p = p + 1;
            },
        }
    }
    acc
}

/// Find the first `do()` at or after `q`.
#[verifier::loop_isolation(false)]
fn find_do_exec(s: &[u8], q0: usize) -> (r: Option<usize>)
    ensures
        r is Some <==> find_do(s@, q0 as int) is Some,
        r matches Some(q) ==> find_do(s@, q0 as int) == Some(q as int) && q0 <= q && q + 4
            <= s@.len(),
{
    let mut q: usize = q0;
    while q < s.len()
        invariant
            q0 <= q,
            find_do(s@, q0 as int) == find_do(s@, q as int),
        decreases s@.len() - q,
    {
        if s.len() - q >= 4 && s[q] == 0x64 && s[q + 1] == 0x6f && s[q + 2] == 0x28 && s[q + 3]
            == 0x29 {
            return Some(q);
        }
        q = q + 1;
    }
    None
}

/// Collect the disabled spans of the input.
#[verifier::loop_isolation(false)]
fn disabled_spans(s: &[u8]) -> (r: Vec<(usize, usize)>)
    ensures
        r@.map_values(|iv: (usize, usize)| (iv.0 as int, iv.1 as int)) == disabled_from(s@, 0),
{
    let ghost conv = |iv: (usize, usize)| (iv.0 as int, iv.1 as int);
    let mut out: Vec<(usize, usize)> = Vec::new();
    let mut p: usize = 0;
    proof {
        assert(out@.map_values(conv) + disabled_from(s@, 0) =~= disabled_from(s@, 0));
    }
    while p < s.len()
        invariant
            disabled_from(s@, 0) == out@.map_values(conv) + disabled_from(s@, p as int),
        decreases s@.len() - p,
    {
        if s.len() - p >= 7 && s[p] == 0x64 && s[p + 1] == 0x6f && s[p + 2] == 0x6e && s[p + 3]
            == 0x27 && s[p + 4] == 0x74 && s[p + 5] == 0x28 && s[p + 6] == 0x29 {
            let fd = if s.len() - p >= 8 {
                find_do_exec(s, p + 8)
            } else {
                proof {
                    assert(find_do(s@, p as int + 8) is None);
                }
                None
            };
            match fd {
                Some(q) => {
                    let ghost pre = out@;
                    out.push((p, q + 4));
                    proof {
                        assert(out@.map_values(conv) =~= pre.map_values(conv).push(
                            (p as int, q as int + 4),
                        ));
                        assert(pre.map_values(conv) + (seq![(p as int, q as int + 4)]
                            + disabled_from(s@, q as int + 4)) =~= out@.map_values(conv)
                            + disabled_from(s@, q as int + 4));
                    }
                    p = q + 4;
                },
                None => {
                    proof {
                        assert(disabled_from(s@, p as int) =~= Seq::<(int, int)>::empty());
                        assert(out@.map_values(conv) + Seq::<(int, int)>::empty() =~=
                            out@.map_values(conv));
                    }
                    return out;
                },
            }
        } else {
            p = p + 1;
        }
    }
    proof {
        assert(disabled_from(s@, p as int) =~= Seq::<(int, int)>::empty());
        assert(out@.map_values(conv) + Seq::<(int, int)>::empty() =~= out@.map_values(conv));
    }
    out
}

/// Whether `p` lies in one of the spans.
#[verifier::loop_isolation(false)]
fn pos_in_spans(ivs: &Vec<(usize, usize)>, p: usize) -> (r: bool)
    ensures
        r == exists|k: int|
            0 <= k < ivs@.len() && (#[trigger] ivs@[k]).0 <= p < ivs@[k].1,
{
    let mut k: usize = 0;
    while k < ivs.len()
        invariant
            k <= ivs@.len(),
            forall|j: int| 0 <= j < k ==> !((#[trigger] ivs@[j]).0 <= p < ivs@[j].1),
        decreases ivs@.len() - k,
    {
        let iv = ivs[k];
        if iv.0 <= p && p < iv.1 {
            proof {
                assert(0 <= k < ivs@.len() && ivs@[k as int].0 <= p < ivs@[k as int].1);
            }
            return true;
        }
        k = k + 1;
    }
    false
}

/// Sum the products of the `mul` instructions that start outside every
/// span from `don't()` to the next `do()`.
#[verifier::loop_isolation(false)]
pub fn part_2(input: &String) -> (r: i64)
    requires
        part2_spec(crate::parsing::str_bytes(input@)) <= i64::MAX,
    ensures
        r == part2_spec(crate::parsing::str_bytes(input@)),
{
    let s = input.as_str().as_bytes();
    proof {
        assert(s@ == crate::parsing::str_bytes(input@));
    }
    let spans = disabled_spans(s);
    let ghost conv = |iv: (usize, usize)| (iv.0 as int, iv.1 as int);
    let mut acc: i64 = 0;
    let mut p: usize = 0;
    while p < s.len()
        invariant
            p <= s@.len(),
            acc >= 0,
            spans@.map_values(conv) == disabled_from(s@, 0),
            acc + scan2(s@, p as int) == scan2(s@, 0),
        decreases s@.len() - p,
    {
        match mul_at(s, p) {
            Some((a, b, e)) => {
                let off = pos_in_spans(&spans, p);
                proof {
                    let dis = disabled_from(s@, 0);
                    assert forall|k: int| 0 <= k < spans@.len() implies (
                    #[trigger] spans@[k]).0 as int == dis[k].0 && spans@[k].1 as int
                        == dis[k].1 by {
                        assert(dis[k] == conv(spans@[k]));
                    }
                    if off {
                        let k = choose|k: int|
                            0 <= k < spans@.len() && (#[trigger] spans@[k]).0 <= p < spans@[k].1;
                        assert(dis[k].0 <= p as int && (p as int) < dis[k].1);
                        assert(in_disabled(s@, p as int));
                    } else {
                        if in_disabled(s@, p as int) {
                            let k = choose|k: int|
                                0 <= k < dis.len() && (#[trigger] dis[k]).0 <= p as int && (
                                p as int) < dis[k].1;
                            assert(spans@[k].0 <= p < spans@[k].1);
                            assert(false);
                        }
                    }
                }
                if !off {
                    acc = acc + (a * b) as i64;
                }
                p = e;
            },
            None => {
                p = p + 1;
            },
        }
    }
    acc
}

} // verus!
