//! Report safety: a report (one line of numbers) is safe when its adjacent
//! differences all lie between 1 and 3 in absolute value and share one
//! direction.  The second part tolerates one removed level per report.

use vstd::prelude::*;
use vstd::string::StringSliceAdditionalSpecFns;

verus! {

/// The sign of an integer: -1, 0 or 1.
pub open spec fn sgn(x: int) -> int {
    if x > 0 {
        1
    } else if x < 0 {
        -1
    } else {
        0
    }
}

/// A report is valid when every adjacent difference has absolute value
/// between 1 and 3 and all differences share one sign.
pub open spec fn spec_valid_report(s: Seq<i64>) -> bool {
    &&& forall|i: int|
        0 <= i < s.len() - 1 ==> (1 <= s[i] - s[i + 1] <= 3 || -3 <= s[i] - (#[trigger] s[i + 1])
            <= -1)
    &&& forall|i: int|
        0 <= i < s.len() - 2 ==> sgn(s[i] - s[i + 1]) == sgn(s[i + 1] - (#[trigger] s[i + 2]))
}

/// Whether one line parses as a report: every whitespace-separated token a
/// signed 64-bit number.
pub open spec fn line_report(l: Seq<u8>) -> Option<Seq<i64>> {
    let toks = crate::parsing::spec_ws_tokens(l);
    if forall|i: int|
        0 <= i < toks.len() ==> ((#[trigger] crate::parsing::spec_int(toks[i])) matches Some(v)
            && i64::MIN <= v <= i64::MAX) {
        Some(toks.map_values(|t: Seq<u8>| (crate::parsing::spec_int(t)->Some_0) as i64))
    } else {
        None
    }
}

/// The reports of the input: one per non-empty line, or `None` when a line
/// is malformed.
pub open spec fn reports_of_lines(ls: Seq<Seq<u8>>) -> Option<Seq<Seq<i64>>>
    decreases ls.len(),
{
    if ls.len() == 0 {
        Some(seq![])
    } else if ls[0].len() == 0 {
        reports_of_lines(ls.drop_first())
    } else {
        match line_report(ls[0]) {
            None => None,
            Some(rep) => match reports_of_lines(ls.drop_first()) {
                None => None,
                Some(rest) => Some(seq![rep] + rest),
            },
        }
    }
}

/// The parse of a whole input text.
pub open spec fn spec_parse(s: Seq<u8>) -> Option<Seq<Seq<i64>>> {
    reports_of_lines(crate::parsing::spec_lines(s))
}

/// Parse one report line.
#[verifier::loop_isolation(false)]
fn parse_report(l: &[u8]) -> (r: Option<Vec<i64>>)
    ensures
        r is Some <==> line_report(l@) is Some,
        r matches Some(v) ==> line_report(l@) == Some(v@),
{
    let toks = crate::parsing::ws_tokens(l);
    let ghost toks_v = crate::parsing::spec_ws_tokens(l@);
    let mut out: Vec<i64> = Vec::new();
    let mut k: usize = 0;
    while k < toks.len()
        invariant
            k <= toks@.len(),
            out@.len() == k,
            forall|j: int|
                0 <= j < k ==> ((#[trigger] crate::parsing::spec_int(toks_v[j])) matches Some(v)
                    && i64::MIN <= v <= i64::MAX),
            forall|j: int| 0 <= j < k ==> out@[j] == (crate::parsing::spec_int(toks_v[j])->Some_0),
        decreases toks@.len() - k,
    {
        proof {
            assert(toks.deep_view()[k as int] == toks@[k as int]@);
        }
        match crate::parsing::parse_i64(toks[k].as_slice()) {
            Some(v) => {
                out.push(v);
            },
            None => {
                return None;
            },
        }
        k = k + 1;
    }
    proof {
        assert(out@ =~= toks_v.map_values(|t: Seq<u8>| (crate::parsing::spec_int(t)->Some_0) as i64));
    }
    Some(out)
}

/// Parse the input into one report per non-empty line, or `None` when a
/// line is malformed.
#[verifier::loop_isolation(false)]
pub fn parse_input(input: &String) -> (r: Option<Vec<Vec<i64>>>)
    ensures
        r is Some <==> spec_parse(crate::parsing::str_bytes(input@)) is Some,
        r matches Some(v) ==> Some(v.deep_view()) == spec_parse(crate::parsing::str_bytes(input@)),
{
    let bytes = input.as_str().as_bytes();
    proof {
        assert(bytes@ == crate::parsing::str_bytes(input@));
    }
    let ls = crate::parsing::lines_bytes(bytes);
    let ghost lsv = crate::parsing::spec_lines(crate::parsing::str_bytes(input@));
    let mut out: Vec<Vec<i64>> = Vec::new();
    let mut li: usize = 0;
    proof {
        assert(lsv.skip(0) =~= lsv);
        assert(out.deep_view() =~~= Seq::<Seq<i64>>::empty());
        if reports_of_lines(lsv) is Some {
            let rest = reports_of_lines(lsv)->Some_0;
            assert(out.deep_view() + rest =~~= rest);
        }
    }
    while li < ls.len()
        invariant
            li <= ls@.len(),
            match reports_of_lines(lsv.skip(li as int)) {
                Some(rest) => reports_of_lines(lsv) == Some(out.deep_view() + rest),
                None => reports_of_lines(lsv) is None,
            },
        decreases ls@.len() - li,
    {
        let ghost pre_out = out.deep_view();
        proof {
            assert(lsv.skip(li as int)[0] == lsv[li as int]);
            assert(lsv.skip(li as int).drop_first() =~= lsv.skip(li as int + 1));
            assert(ls.deep_view()[li as int] == ls@[li as int]@);
        }
        let line = &ls[li];
        if line.len() > 0 {
            match parse_report(line.as_slice()) {
                Some(rep) => {
                    let ghost repv = rep@;
                    out.push(rep);
                    proof {
                        assert(out.deep_view() =~~= pre_out.push(repv));
                        if reports_of_lines(lsv.skip(li as int + 1)) is Some {
                            let rest = reports_of_lines(lsv.skip(li as int + 1))->Some_0;
                            assert(pre_out + (seq![repv] + rest) =~~= pre_out.push(repv) + rest);
                        }
                    }
                },
                None => {
                    return None;
                },
            }
        }
        li = li + 1;
    }
    proof {
        assert(lsv.skip(li as int) =~= Seq::<Seq<u8>>::empty());
        assert(out.deep_view() + Seq::<Seq<i64>>::empty() =~~= out.deep_view());
    }
    Some(out)
}

/// Decide whether a report is valid: adjacent levels differ by 1 to 3 and
/// all steps go one way.
#[verifier::loop_isolation(false)]
pub fn valid_report(report: &Vec<i64>) -> (r: bool)
    ensures
        r == spec_valid_report(report@),
{
    let n = report.len();
    if n < 2 {
        return true;
    }
    let mut i: usize = 0;
    while i < n - 1
        invariant
            i <= n - 1,
            forall|j: int|
                0 <= j < i ==> (1 <= report@[j] - report@[j + 1] <= 3 || -3 <= report@[j]
                    - (#[trigger] report@[j + 1]) <= -1),
        decreases n - i,
    {
        let d: i128 = report[i] as i128 - report[i + 1] as i128;
        if !((1 <= d && d <= 3) || (-3 <= d && d <= -1)) {
            return false;
        }
        i = i + 1;
    }
    let mut i: usize = 0;
    while i < n - 2
        invariant
            i <= n,
            forall|j: int|
                0 <= j < i ==> sgn(report@[j] - report@[j + 1]) == sgn(
                    report@[j + 1] - (#[trigger] report@[j + 2]),
                ),
        decreases n - i,
    {
        let d1: i128 = report[i] as i128 - report[i + 1] as i128;
        let d2: i128 = report[i + 1] as i128 - report[i + 2] as i128;
        let s1: i128 = if d1 > 0 {
            1
        } else if d1 < 0 {
            -1
        } else {
            0
        };
        let s2: i128 = if d2 > 0 {
            1
        } else if d2 < 0 {
            -1
        } else {
            0
        };
        if s1 != s2 {
            return false;
        }
        i = i + 1;
    }
    true
}

/// A copy of the report with the level at `i` removed.
#[verifier::loop_isolation(false)]
fn report_without(report: &Vec<i64>, i: usize) -> (r: Vec<i64>)
    requires
        i < report@.len(),
    ensures
        r@ == report@.remove(i as int),
{
    let mut out: Vec<i64> = Vec::new();
    let mut j: usize = 0;
    while j < report.len()
        invariant
            j <= report@.len(),
            out@.len() == if j <= i {
                j as int
            } else {
                j - 1
            },
            forall|m: int|
                0 <= m < out@.len() ==> out@[m] == (if m < i {
                    report@[m]
                } else {
                    report@[m + 1]
                }),
        decreases report@.len() - j,
    {
        if j != i {
            out.push(report[j]);
        }
        j = j + 1;
    }
    proof {
        assert(out@ =~= report@.remove(i as int));
    }
    out
}

/// The number of valid reports.
pub open spec fn count_valid(rs: Seq<Seq<i64>>) -> nat
    decreases rs.len(),
{
    if rs.len() == 0 {
        0
    } else {
        (if spec_valid_report(rs[0]) {
            1nat
        } else {
            0nat
        }) + count_valid(rs.drop_first())
    }
}

/// A report is saved by damping when removing one level makes it valid.
pub open spec fn spec_damped_valid(s: Seq<i64>) -> bool {
    exists|i: int| 0 <= i < s.len() && spec_valid_report(s.remove(i))
}

/// The number of reports valid after removing at most one level.
pub open spec fn count_damped(rs: Seq<Seq<i64>>) -> nat
    decreases rs.len(),
{
    if rs.len() == 0 {
        0
    } else {
        (if spec_damped_valid(rs[0]) {
            1nat
        } else {
            0nat
        }) + count_damped(rs.drop_first())
    }
}

/// Count the valid reports of the input.
#[verifier::loop_isolation(false)]
pub fn part_1(input: &String) -> (r: Option<usize>)
    ensures
        r is Some <==> spec_parse(crate::parsing::str_bytes(input@)) is Some,
        r matches Some(c) ==> spec_parse(crate::parsing::str_bytes(input@)) matches Some(rs) && c
            == count_valid(rs),
{
    let reports = match parse_input(input) {
        Some(rs) => rs,
        None => {
            return None;
        },
    };
    let ghost dv = reports.deep_view();
    let mut c: usize = 0;
    let mut i: usize = 0;
    proof {
        assert(dv.skip(0) =~= dv);
    }
    while i < reports.len()
        invariant
            i <= reports@.len(),
            c <= i,
            c + count_valid(dv.skip(i as int)) == count_valid(dv),
        decreases reports@.len() - i,
    {
        proof {
            assert(dv.skip(i as int)[0] == dv[i as int]);
            assert(dv.skip(i as int).drop_first() =~= dv.skip(i as int + 1));
            assert(dv[i as int] == reports@[i as int].deep_view());
            assert(dv[i as int] =~= reports@[i as int]@);
        }
        if valid_report(&reports[i]) {
            c = c + 1;
        }
        i = i + 1;
    }
    Some(c)
}

/// Count the reports valid after removing at most one level.
#[verifier::loop_isolation(false)]
pub fn part_2(input: &String) -> (r: Option<usize>)
    ensures
        r is Some <==> spec_parse(crate::parsing::str_bytes(input@)) is Some,
        r matches Some(c) ==> spec_parse(crate::parsing::str_bytes(input@)) matches Some(rs) && c
            == count_damped(rs),
{
    let reports = match parse_input(input) {
        Some(rs) => rs,
        None => {
            return None;
        },
    };
    let ghost dv = reports.deep_view();
    let mut c: usize = 0;
    let mut i: usize = 0;
    proof {
        assert(dv.skip(0) =~= dv);
    }
    while i < reports.len()
        invariant
            i <= reports@.len(),
            c <= i,
            c + count_damped(dv.skip(i as int)) == count_damped(dv),
        decreases reports@.len() - i,
    {
        proof {
            assert(dv.skip(i as int)[0] == dv[i as int]);
            assert(dv.skip(i as int).drop_first() =~= dv.skip(i as int + 1));
            assert(dv[i as int] == reports@[i as int].deep_view());
            assert(dv[i as int] =~= reports@[i as int]@);
        }
        let report = &reports[i];
        let mut found = false;
        let mut k: usize = 0;
        while k < report.len() && !found
            invariant
                k <= report@.len(),
                found ==> spec_damped_valid(report@),
                !found ==> forall|j: int| 0 <= j < k ==> !spec_valid_report(report@.remove(j)),
            decreases report@.len() - k + (if found {
                0int
            } else {
                1int
            }),
        {
            let copy = report_without(report, k);
            if valid_report(&copy) {
                found = true;
            }
            k = k + 1;
        }
        if found {
            c = c + 1;
        }
        i = i + 1;
    }
    Some(c)
}

} // verus!
