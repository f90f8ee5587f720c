//! Page ordering: rules `a|b` say that page `a` must precede page `b`.
//! Updates already in order contribute their middle page to the first
//! answer; the others are reordered by the rules and contribute their new
//! middle page to the second.

use vstd::prelude::*;
use vstd::string::StringSliceAdditionalSpecFns;
use core::cmp::Ordering;

verus! {

/// How many lines are empty.
pub open spec fn empty_count(ls: Seq<Seq<u8>>) -> nat
    decreases ls.len(),
{
    if ls.len() == 0 {
        0
    } else {
        (if ls[0].len() == 0 {
            1nat
        } else {
            0nat
        }) + empty_count(ls.drop_first())
    }
}

/// The index of the first empty line.
pub open spec fn empty_idx(ls: Seq<Seq<u8>>) -> int
    decreases ls.len(),
{
    if ls.len() == 0 {
        0
    } else if ls[0].len() == 0 {
        0
    } else {
        1 + empty_idx(ls.drop_first())
    }
}

/// Whether one line is a rule `a|b` of two 32-bit numbers.
pub open spec fn line_rule(l: Seq<u8>) -> Option<(u32, u32)> {
    let parts = crate::parsing::spec_split(l, 0x7c);
    if parts.len() == 2 && (crate::parsing::spec_uint(parts[0]) matches Some(a) && a <= u32::MAX)
        && (crate::parsing::spec_uint(parts[1]) matches Some(b) && b <= u32::MAX) {
        Some(
            (
                (crate::parsing::spec_uint(parts[0])->Some_0) as u32,
                (crate::parsing::spec_uint(parts[1])->Some_0) as u32,
            ),
        )
    } else {
        None
    }
}

/// Whether one line is an update: comma-separated 32-bit numbers.
pub open spec fn line_update(l: Seq<u8>) -> Option<Seq<u32>> {
    let toks = crate::parsing::spec_split(l, 0x2c);
    if forall|i: int|
        0 <= i < toks.len() ==> ((#[trigger] crate::parsing::spec_uint(toks[i])) matches Some(v)
            && v <= u32::MAX) {
        Some(toks.map_values(|t: Seq<u8>| (crate::parsing::spec_uint(t)->Some_0) as u32))
    } else {
        None
    }
}

pub open spec fn rules_of(ls: Seq<Seq<u8>>) -> Option<Seq<(u32, u32)>>
    decreases ls.len(),
{
    if ls.len() == 0 {
        Some(seq![])
    } else {
        match line_rule(ls[0]) {
            None => None,
            Some(p) => match rules_of(ls.drop_first()) {
                None => None,
                Some(rest) => Some(seq![p] + rest),
            },
        }
    }
}

pub open spec fn updates_of(ls: Seq<Seq<u8>>) -> Option<Seq<Seq<u32>>>
    decreases ls.len(),
{
    if ls.len() == 0 {
        Some(seq![])
    } else {
        match line_update(ls[0]) {
            None => None,
            Some(u) => match updates_of(ls.drop_first()) {
                None => None,
                Some(rest) => Some(seq![u] + rest),
            },
        }
    }
}

/// The parse of a whole input: the rule lines, one empty line, the update
/// lines.
pub open spec fn spec_parse(s: Seq<u8>) -> Option<(Seq<(u32, u32)>, Seq<Seq<u32>>)> {
    let ls = crate::parsing::spec_lines(s);
    if empty_count(ls) != 1 {
        None
    } else {
        let e = empty_idx(ls);
        match (rules_of(ls.take(e)), updates_of(ls.skip(e + 1))) {
            (Some(rs), Some(us)) => Some((rs, us)),
            _ => None,
        }
    }
}

/// The set of ordering rules, held as the parsed pairs; conceptually an
/// index from a page to the pages that must precede it.
#[derive(Debug)]
pub struct RuleMap {
    pub pairs: Vec<(u32, u32)>,
}

impl View for RuleMap {
    type V = Seq<(u32, u32)>;

    open spec fn view(&self) -> Seq<(u32, u32)> {
        self.pairs@
    }
}

/// Whether the rules demand that `a` come before `b`.
pub open spec fn rm_has(rs: Seq<(u32, u32)>, a: u32, b: u32) -> bool {
    exists|i: int| 0 <= i < rs.len() && rs[i] == (a, b)
}

/// Collect the rules into the structure the comparator reads.
pub fn construct_rule_map(rules: &Vec<(u32, u32)>) -> (r: RuleMap)
    ensures
        r@ == rules@,
{
    let mut pairs: Vec<(u32, u32)> = Vec::new();
    let mut i: usize = 0;
    while i < rules.len()
        invariant
            i <= rules@.len(),
            pairs@ =~= rules@.take(i as int),
        decreases rules@.len() - i,
    {
        let p = rules[i];
        pairs.push(p);
        proof {
            assert(pairs@ =~= rules@.take(i as int + 1));
        }
        i = i + 1;
    }
    proof {
        assert(rules@.take(rules@.len() as int) =~= rules@);
    }
    RuleMap { pairs }
}

/// The comparator over the rules: `Less` when a rule orders `left` before
/// `right`, else `Greater` when one orders `right` before `left`, else
/// `Equal`.
pub open spec fn cmp_spec(left: u32, right: u32, rs: Seq<(u32, u32)>) -> Ordering {
    if rm_has(rs, left, right) {
        Ordering::Less
    } else if rm_has(rs, right, left) {
        Ordering::Greater
    } else {
        Ordering::Equal
    }
}

/// Whether a rule pair occurs in the map.
#[verifier::loop_isolation(false)]
fn rm_contains(rules: &RuleMap, a: u32, b: u32) -> (r: bool)
    ensures
        r == rm_has(rules@, a, b),
{
    let mut i: usize = 0;
    while i < rules.pairs.len()
        invariant
            i <= rules@.len(),
            forall|j: int| 0 <= j < i ==> rules@[j] != (a, b),
        decreases rules@.len() - i,
    {
        let p = rules.pairs[i];
        if p.0 == a && p.1 == b {
            return true;
        }
        i = i + 1;
    }
    false
}

/// Compare two pages by the rules.
pub fn cmp_by_rules(left: &u32, right: &u32, rules: &RuleMap) -> (r: Ordering)
    ensures
        r == cmp_spec(*left, *right, rules@),
{
    if rm_contains(rules, *left, *right) {
        Ordering::Less
    } else if rm_contains(rules, *right, *left) {
        Ordering::Greater
    } else {
        Ordering::Equal
    }
}

/// Stable insertion of `x` into `acc` from the right: `x` passes exactly
/// the elements the comparator puts after it.
pub open spec fn insert_by(acc: Seq<u32>, x: u32, rs: Seq<(u32, u32)>) -> Seq<u32>
    decreases acc.len(),
{
    if acc.len() == 0 {
        seq![x]
    } else if cmp_spec(acc.last(), x, rs) == Ordering::Greater {
        insert_by(acc.drop_last(), x, rs).push(acc.last())
    } else {
        acc.push(x)
    }
}

pub open spec fn sort_rec(s: Seq<u32>, acc: Seq<u32>, rs: Seq<(u32, u32)>) -> Seq<u32>
    decreases s.len(),
{
    if s.len() == 0 {
        acc
    } else {
        sort_rec(s.drop_first(), insert_by(acc, s[0], rs), rs)
    }
}

/// The update reordered by the rules: a stable insertion sort under the
/// comparator.
pub open spec fn sort_by_rules(s: Seq<u32>, rs: Seq<(u32, u32)>) -> Seq<u32> {
    sort_rec(s, seq![], rs)
}

/// `insert_by` places `x` at the first position from which every element
/// compares `Greater` to it.
proof fn lemma_insert_by_at(acc: Seq<u32>, x: u32, rs: Seq<(u32, u32)>, j: int)
    requires
        0 <= j <= acc.len(),
        forall|m: int| j <= m < acc.len() ==> cmp_spec(#[trigger] acc[m], x, rs) == Ordering::Greater,
        j > 0 ==> cmp_spec(acc[j - 1], x, rs) != Ordering::Greater,
    ensures
        insert_by(acc, x, rs) == acc.insert(j, x),
    decreases acc.len(),
{
    if acc.len() == 0 {
        assert(acc.insert(0, x) =~= seq![x]);
    } else if cmp_spec(acc.last(), x, rs) == Ordering::Greater {
        assert(j < acc.len());
        lemma_insert_by_at(acc.drop_last(), x, rs, j);
        acc.drop_last().insert_ensures(j, x);
        acc.insert_ensures(j, x);
        assert(acc.drop_last().insert(j, x).push(acc.last()) =~= acc.insert(j, x));
    } else {
        assert(j == acc.len());
        assert(acc.push(x) =~= acc.insert(acc.len() as int, x));
    }
}

/// Sort one update by the rules.
#[verifier::loop_isolation(false)]
pub fn sort_update(update: &Vec<u32>, rules: &RuleMap) -> (r: Vec<u32>)
    ensures
        r@ == sort_by_rules(update@, rules@),
{
    let ghost uv = update@;
    let ghost rs = rules@;
    let mut out: Vec<u32> = Vec::new();
    let mut i: usize = 0;
    proof {
        assert(uv.skip(0) =~= uv);
    }
    while i < update.len()
        invariant
            i <= uv.len(),
            sort_by_rules(uv, rs) == sort_rec(uv.skip(i as int), out@, rs),
        decreases uv.len() - i,
    {
        let ghost pre = out@;
        proof {
            assert(uv.skip(i as int)[0] == uv[i as int]);
            assert(uv.skip(i as int).drop_first() =~= uv.skip(i as int + 1));
        }
        let x = update[i];
        let mut k: usize = out.len();
        while k > 0 && matches!(cmp_by_rules(&out[k - 1], &x, rules), Ordering::Greater)
            invariant
                k <= out@.len(),
                forall|m: int|
                    k <= m < out@.len() ==> cmp_spec(#[trigger] out@[m], x, rs)
                        == Ordering::Greater,
            decreases k,
        {
            k = k - 1;
        }
        out.insert(k, x);
        proof {
            lemma_insert_by_at(pre, x, rs, k as int);
            assert(out@ == insert_by(pre, x, rs));
        }
        i = i + 1;
    }
    proof {
        assert(uv.skip(uv.len() as int) =~= Seq::<u32>::empty());
    }
    out
}

/// Whether two page lists are equal.
#[verifier::loop_isolation(false)]
fn vecs_equal(a: &Vec<u32>, b: &Vec<u32>) -> (r: bool)
    ensures
        r == (a@ == b@),
{
    if a.len() != b.len() {
        return false;
    }
    let mut i: usize = 0;
    while i < a.len()
        invariant
            i <= a@.len(),
            a@.len() == b@.len(),
            forall|j: int| 0 <= j < i ==> a@[j] == b@[j],
        decreases a@.len() - i,
    {
        if a[i] != b[i] {
            return false;
        }
        i = i + 1;
    }
    proof {
        assert(a@ =~= b@);
    }
    true
}

/// The middle page of an update.
pub open spec fn middle(u: Seq<u32>) -> nat {
    if u.len() > 0 {
        u[u.len() as int / 2] as nat
    } else {
        0
    }
}

/// The first answer: the middle pages of the updates already in order.
pub open spec fn part1_sum(us: Seq<Seq<u32>>, rs: Seq<(u32, u32)>) -> nat
    decreases us.len(),
{
    if us.len() == 0 {
        0
    } else {
        (if sort_by_rules(us[0], rs) == us[0] {
            middle(us[0])
        } else {
            0
        }) + part1_sum(us.drop_first(), rs)
    }
}

/// The second answer: the middle pages, after sorting, of the updates that
/// were out of order.
pub open spec fn part2_sum(us: Seq<Seq<u32>>, rs: Seq<(u32, u32)>) -> nat
    decreases us.len(),
{
    if us.len() == 0 {
        0
    } else {
        (if sort_by_rules(us[0], rs) != us[0] {
            middle(sort_by_rules(us[0], rs))
        } else {
            0
        }) + part2_sum(us.drop_first(), rs)
    }
}

/// Parse one rule line.
fn parse_rule(l: &[u8]) -> (r: Option<(u32, u32)>)
    ensures
        r == line_rule(l@),
{
    let parts = crate::parsing::split_bytes(l, 0x7c);
    if parts.len() != 2 {
        return None;
    }
    proof {
        assert(parts.deep_view()[0] == parts@[0]@);
        assert(parts.deep_view()[1] == parts@[1]@);
    }
    let a = match crate::parsing::parse_u32(parts[0].as_slice()) {
        Some(a) => a,
        None => {
            return None;
        },
    };
    let b = match crate::parsing::parse_u32(parts[1].as_slice()) {
        Some(b) => b,
        None => {
            return None;
        },
    };
    Some((a, b))
}

/// Parse one update line.
#[verifier::loop_isolation(false)]
fn parse_update(l: &[u8]) -> (r: Option<Vec<u32>>)
    ensures
        r is Some <==> line_update(l@) is Some,
        r matches Some(v) ==> line_update(l@) == Some(v@),
{
    let toks = crate::parsing::split_bytes(l, 0x2c);
    let ghost toks_v = crate::parsing::spec_split(l@, 0x2c);
    let mut out: Vec<u32> = Vec::new();
    let mut k: usize = 0;
    while k < toks.len()
        invariant
            k <= toks@.len(),
            out@.len() == k,
            forall|j: int|
                0 <= j < k ==> ((#[trigger] crate::parsing::spec_uint(toks_v[j])) matches Some(v)
                    && v <= u32::MAX),
            forall|j: int| 0 <= j < k ==> out@[j] == (crate::parsing::spec_uint(toks_v[j])->Some_0),
        decreases toks@.len() - k,
    {
        proof {
            assert(toks.deep_view()[k as int] == toks@[k as int]@);
        }
        match crate::parsing::parse_u32(toks[k].as_slice()) {
            Some(v) => {
                out.push(v);
            },
            None => {
                return None;
            },
        }
        k = k + 1;
    }
    proof {
        assert(out@ =~= toks_v.map_values(|t: Seq<u8>| (crate::parsing::spec_uint(t)->Some_0) as u32));
    }
    Some(out)
}

/// Parse the rules and the updates of the input.
#[verifier::loop_isolation(false)]
#[verifier::rlimit(80)]
pub fn parse_input(input: &str) -> (r: Option<(Vec<(u32, u32)>, Vec<Vec<u32>>)>)
    ensures
        r is Some <==> spec_parse(input.spec_bytes()) is Some,
        r matches Some(ru) ==> spec_parse(input.spec_bytes()) matches Some(p) && ru.0@ == p.0
            && ru.1.deep_view() == p.1,
{
    let bytes = input.as_bytes();
    let ls = crate::parsing::lines_bytes(bytes);
    let ghost lsv = crate::parsing::spec_lines(input.spec_bytes());
    let mut empties: usize = 0;
    let mut first_empty: usize = 0;
    let mut li: usize = 0;
    proof {
        assert(lsv.skip(0) =~= lsv);
    }
    while li < ls.len()
        invariant
            li <= ls@.len(),
            empties <= li,
            empty_count(lsv) == empties + empty_count(lsv.skip(li as int)),
            empties >= 1 ==> 0 <= first_empty < li && lsv[first_empty as int].len() == 0
                && first_empty == empty_idx(lsv),
            empties == 0 ==> empty_idx(lsv) == li + empty_idx(lsv.skip(li as int)),
            empties == 0 ==> forall|j: int| 0 <= j < li ==> (#[trigger] lsv[j]).len() != 0,
        decreases ls@.len() - li,
    {
        proof {
            assert(lsv.skip(li as int)[0] == lsv[li as int]);
            assert(lsv.skip(li as int).drop_first() =~= lsv.skip(li as int + 1));
            assert(ls.deep_view()[li as int] == ls@[li as int]@);
        }
        if ls[li].len() == 0 {
            if empties == 0 {
                first_empty = li;
            }
            empties = empties + 1;
        }
        li = li + 1;
    }
    proof {
        assert(lsv.skip(li as int) =~= Seq::<Seq<u8>>::empty());
    }
    if empties != 1 {
        return None;
    }
    let ghost e = empty_idx(lsv);
    let ghost rl = lsv.take(e);
    let ghost ul = lsv.skip(e + 1);
    let mut rules: Vec<(u32, u32)> = Vec::new();
    let mut i: usize = 0;
    proof {
        assert(rl.skip(0) =~= rl);
        if rules_of(rl) is Some {
            let rest = rules_of(rl)->Some_0;
            assert(Seq::<(u32, u32)>::empty() + rest =~= rest);
        }
    }
    while i < first_empty
        invariant
            i <= first_empty,
            first_empty == e,
            match rules_of(rl.skip(i as int)) {
                Some(rest) => {
                    &&& rules_of(rl) is Some
                    &&& rules@ + rest =~= rules_of(rl)->Some_0
                },
                None => rules_of(rl) is None,
            },
        decreases first_empty - i,
    {
        proof {
            assert(rl.skip(i as int)[0] == rl[i as int]);
            assert(rl[i as int] == lsv[i as int]);
            assert(rl.skip(i as int).drop_first() =~= rl.skip(i as int + 1));
            assert(ls.deep_view()[i as int] == ls@[i as int]@);
        }
        match parse_rule(ls[i].as_slice()) {
            Some(p) => {
                let ghost pre = rules@;
                rules.push(p);
                proof {
                    if rules_of(rl.skip(i as int + 1)) is Some {
                        let rest = rules_of(rl.skip(i as int + 1))->Some_0;
                        assert(pre + (seq![p] + rest) =~= pre.push(p) + rest);
                    }
                }
            },
            None => {
                return None;
            },
        }
        i = i + 1;
    }
    proof {
        assert(rl.skip(first_empty as int) =~= Seq::<Seq<u8>>::empty());
        assert(rules@ + Seq::<(u32, u32)>::empty() =~= rules@);
    }
    let mut updates: Vec<Vec<u32>> = Vec::new();
    let mut j: usize = first_empty + 1;
    proof {
        assert(ul.skip(0) =~= ul);
        if updates_of(ul) is Some {
            let rest = updates_of(ul)->Some_0;
            assert(updates.deep_view() + rest =~~= rest);
        }
    }
    while j < ls.len()
        invariant
            first_empty + 1 <= j <= ls@.len(),
            first_empty == e,
            e + 1 <= lsv.len(),
            match updates_of(ul.skip(j - first_empty - 1)) {
                Some(rest) => {
                    &&& updates_of(ul) is Some
                    &&& updates.deep_view() + rest =~~= updates_of(ul)->Some_0
                },
                None => updates_of(ul) is None,
            },
        decreases ls@.len() - j,
    {
        proof {
            assert(ul.skip(j - first_empty - 1)[0] == ul[j - first_empty - 1]);
            assert(ul[j - first_empty - 1] == lsv[j as int]);
            assert(ul.skip(j - first_empty - 1).drop_first() =~= ul.skip(j - first_empty));
            assert(ls.deep_view()[j as int] == ls@[j as int]@);
        }
        match parse_update(ls[j].as_slice()) {
            Some(u) => {
                let ghost pre = updates.deep_view();
                let ghost uvv = u@;
                updates.push(u);
                proof {
                    assert(updates.deep_view() =~~= pre.push(uvv));
                    if updates_of(ul.skip(j - first_empty)) is Some {
                        let rest = updates_of(ul.skip(j - first_empty))->Some_0;
                        assert(pre + (seq![uvv] + rest) =~~= pre.push(uvv) + rest);
                    }
                }
            },
            None => {
                return None;
            },
        }
        j = j + 1;
    }
    proof {
        assert(ul.skip(j - first_empty - 1) =~= Seq::<Seq<u8>>::empty());
        assert(updates.deep_view() + Seq::<Seq<u32>>::empty() =~~= updates.deep_view());
    }
    Some((rules, updates))
}

/// Sum the middle pages of the updates already in rule order.
#[verifier::loop_isolation(false)]
pub fn part_1(input: &str) -> (r: Option<usize>)
    requires
        spec_parse(input.spec_bytes()) matches Some(p) ==> part1_sum(p.1, p.0) <= usize::MAX,
    ensures
        r is Some <==> spec_parse(input.spec_bytes()) is Some,
        r matches Some(v) ==> spec_parse(input.spec_bytes()) matches Some(p) && v == part1_sum(
            p.1,
            p.0,
        ),
{
    let (rules, updates) = match parse_input(input) {
        Some(ru) => ru,
        None => {
            return None;
        },
    };
    let rule_map = construct_rule_map(&rules);
    let ghost us = updates.deep_view();
    let ghost rs = rules@;
    let mut total: usize = 0;
    let mut i: usize = 0;
    proof {
        assert(us.skip(0) =~= us);
    }
    while i < updates.len()
        invariant
            i <= us.len(),
            total + part1_sum(us.skip(i as int), rs) == part1_sum(us, rs),
        decreases us.len() - i,
    {
        proof {
            assert(us.skip(i as int)[0] == us[i as int]);
            assert(us.skip(i as int).drop_first() =~= us.skip(i as int + 1));
            assert(us[i as int] == updates@[i as int].deep_view());
            assert(us[i as int] =~= updates@[i as int]@);
        }
        let update = &updates[i];
        let sorted_u = sort_update(update, &rule_map);
        if vecs_equal(&sorted_u, update) {
            if update.len() > 0 {
                let m = update[update.len() / 2];
                total = total + m as usize;
            }
        }
        i = i + 1;
    }
    proof {
        assert(us.skip(us.len() as int) =~= Seq::<Seq<u32>>::empty());
    }
    Some(total)
}

/// Sum the middle pages, after sorting, of the updates that were out of
/// order.
#[verifier::loop_isolation(false)]
pub fn part_2(input: &str) -> (r: Option<usize>)
    requires
        spec_parse(input.spec_bytes()) matches Some(p) ==> part2_sum(p.1, p.0) <= usize::MAX,
    ensures
        r is Some <==> spec_parse(input.spec_bytes()) is Some,
        r matches Some(v) ==> spec_parse(input.spec_bytes()) matches Some(p) && v == part2_sum(
            p.1,
            p.0,
        ),
{
    let (rules, updates) = match parse_input(input) {
        Some(ru) => ru,
        None => {
            return None;
        },
    };
    let rule_map = construct_rule_map(&rules);
    let ghost us = updates.deep_view();
    let ghost rs = rules@;
    let mut total: usize = 0;
    let mut i: usize = 0;
    proof {
        assert(us.skip(0) =~= us);
    }
    while i < updates.len()
        invariant
            i <= us.len(),
            total + part2_sum(us.skip(i as int), rs) == part2_sum(us, rs),
        decreases us.len() - i,
    {
        proof {
            assert(us.skip(i as int)[0] == us[i as int]);
            assert(us.skip(i as int).drop_first() =~= us.skip(i as int + 1));
            assert(us[i as int] == updates@[i as int].deep_view());
            assert(us[i as int] =~= updates@[i as int]@);
        }
        let update = &updates[i];
        let sorted_u = sort_update(update, &rule_map);
        if !vecs_equal(&sorted_u, update) {
            if sorted_u.len() > 0 {
                let m = sorted_u[sorted_u.len() / 2];
                total = total + m as usize;
            }
        }
        i = i + 1;
    }
    proof {
        assert(us.skip(us.len() as int) =~= Seq::<Seq<u32>>::empty());
    }
    Some(total)
}

} // verus!
