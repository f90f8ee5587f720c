//! The calibration equation solver.
//!
//! An equation pairs a target with an ordered list of operands.  The solver
//! searches for an assignment of binary operators between consecutive
//! operands — evaluated strictly left to right, with no precedence — that
//! reproduces the target, and sums the targets of all solvable equations.
//! The operator alphabet is either `{Add, Multiply}` or, when concatenation
//! is enabled, `{Add, Multiply, Concatenate}`.
//!
//! Arithmetic is checked: an intermediate value that does not fit in `u64`
//! makes the candidate expression a definite non-match, never a crash.

use vstd::prelude::*;
use vstd::string::StringSliceAdditionalSpecFns;

verus! {

/// A candidate expression: a left-skewed binary tree whose leaves are
/// operand constants.  Every right child is a leaf, so evaluation order is
/// strictly left to right.
#[derive(Debug, PartialEq, Eq)]
pub enum Symbol {
    Constant(u64),
    Add(Box<Symbol>, Box<Symbol>),
    Multiply(Box<Symbol>, Box<Symbol>),
    Concatenate(Box<Symbol>, Box<Symbol>),
}

/// `10^n`.
pub open spec fn pow10(n: nat) -> nat
    decreases n,
{
    if n == 0 {
        1
    } else {
        10 * pow10((n - 1) as nat)
    }
}

/// The number of decimal digits of `n`, with `digit_count(0) == 1`.
pub open spec fn digit_count(n: nat) -> nat
    decreases n,
{
    if n < 10 {
        1
    } else {
        1 + digit_count(n / 10)
    }
}

/// Decimal concatenation of `a` and `b`: the digits of `a` followed by the
/// digits of `b`.
pub open spec fn concat_val(a: nat, b: nat) -> nat {
    a * pow10(digit_count(b)) + b
}

/// The mathematical value of an expression, over unbounded integers.
pub open spec fn sym_val(s: Symbol) -> nat
    decreases s,
{
    match s {
        Symbol::Constant(n) => n as nat,
        Symbol::Add(l, r) => sym_val(*l) + sym_val(*r),
        Symbol::Multiply(l, r) => sym_val(*l) * sym_val(*r),
        Symbol::Concatenate(l, r) => concat_val(sym_val(*l), sym_val(*r)),
    }
}

/// Whether every node of the expression evaluates within `u64`.  An
/// expression that overflows anywhere is a definite non-match.
pub open spec fn sym_ok(s: Symbol) -> bool
    decreases s,
{
    match s {
        Symbol::Constant(_) => true,
        Symbol::Add(l, r) => sym_ok(*l) && sym_ok(*r) && sym_val(*l) + sym_val(*r) <= u64::MAX,
        Symbol::Multiply(l, r) => sym_ok(*l) && sym_ok(*r) && sym_val(*l) * sym_val(*r)
            <= u64::MAX,
        Symbol::Concatenate(l, r) => sym_ok(*l) && sym_ok(*r) && concat_val(
            sym_val(*l),
            sym_val(*r),
        ) <= u64::MAX,
    }
}

pub proof fn lemma_pow10_pos(n: nat)
    ensures
        pow10(n) >= 1,
    decreases n,
{
    if n > 0 {
        lemma_pow10_pos((n - 1) as nat);
    }
}

pub proof fn lemma_pow10_mono(i: nat, j: nat)
    requires
        i <= j,
    ensures
        pow10(i) <= pow10(j),
    decreases j,
{
    lemma_pow10_pos(i);
    if i < j {
        lemma_pow10_mono(i, (j - 1) as nat);
    }
}

/// Any number below `10^k` has at most `k` digits.
pub proof fn lemma_digit_count_le(n: nat, k: nat)
    requires
        k >= 1,
        n < pow10(k),
    ensures
        digit_count(n) <= k,
    decreases n,
{
    if n >= 10 {
        if k == 1 {
            assert(pow10(1) == 10) by {
                reveal_with_fuel(pow10, 2);
            }
            assert(false);
        }
        assert(pow10(k) == 10 * pow10((k - 1) as nat));
        assert(n / 10 < pow10((k - 1) as nat)) by (nonlinear_arith)
            requires
                n < 10 * pow10((k - 1) as nat),
                n >= 10,
        ;
        lemma_digit_count_le(n / 10, (k - 1) as nat);
    }
}

/// Every `u64` has between 1 and 20 decimal digits.
pub proof fn lemma_u64_digit_count(n: nat)
    requires
        n <= u64::MAX,
    ensures
        1 <= digit_count(n) <= 20,
{
    assert(pow10(20) == 100000000000000000000) by {
        reveal_with_fuel(pow10, 21);
    }
    lemma_digit_count_le(n, 20);
}

/// The number of decimal digits of `x`, counted at run time.
pub fn count_digits(x: u64) -> (d: u64)
    ensures
        d == digit_count(x as nat),
        1 <= d <= 20,
{
    proof {
        lemma_u64_digit_count(x as nat);
    }
    let mut n: u64 = x;
    let mut d: u64 = 1;
    while n >= 10
        invariant
            d >= 1,
            digit_count(x as nat) == d - 1 + digit_count(n as nat),
            digit_count(x as nat) <= 20,
        decreases n,
    {
        proof {
            lemma_u64_digit_count(n as nat);
        }
        n = n / 10;
        d = d + 1;
    }
    d
}

/// Decimal concatenation of two machine integers, or `None` when the result
/// does not fit in `u64`.
pub fn concat_u64(a: u64, b: u64) -> (r: Option<u64>)
    ensures
        r is Some <==> concat_val(a as nat, b as nat) <= u64::MAX,
        r matches Some(v) ==> v == concat_val(a as nat, b as nat),
{
    let d = count_digits(b);
    let mut acc: u64 = a;
    let mut i: u64 = 0;
    proof {
        assert(pow10(0) == 1);
        assert((a as nat) * 1 == a as nat) by (nonlinear_arith);
    }
    while i < d
        invariant
            i <= d,
            d == digit_count(b as nat),
            acc == (a as nat) * pow10(i as nat),
        decreases d - i,
    {
        proof {
            lemma_pow10_pos(i as nat);
        }
        acc = match acc.checked_mul(10) {
            Some(x) => x,
            None => {
                proof {
                    lemma_pow10_mono((i + 1) as nat, d as nat);
                    assert((a as nat) * pow10((i + 1) as nat) <= (a as nat) * pow10(d as nat))
                        by (nonlinear_arith)
                        requires
                            pow10((i + 1) as nat) <= pow10(d as nat),
                    ;
                    assert((a as nat) * pow10((i + 1) as nat) == (a as nat) * pow10(i as nat) * 10)
                        by (nonlinear_arith)
                        requires
                            pow10((i + 1) as nat) == 10 * pow10(i as nat),
                    ;
                }
                return None;
            },
        };
        proof {
            assert((a as nat) * pow10((i + 1) as nat) == (a as nat) * pow10(i as nat) * 10)
                by (nonlinear_arith)
                requires
                    pow10((i + 1) as nat) == 10 * pow10(i as nat),
            ;
        }
        i = i + 1;
    }
    acc.checked_add(b)
}

impl Symbol {
    /// Evaluate the expression bottom-up with checked arithmetic.  Returns
    /// the value when every intermediate result fits in `u64`, and `None`
    /// otherwise.
    pub fn evaluate(&self) -> (r: Option<u64>)
        ensures
            r is Some <==> sym_ok(*self),
            r matches Some(v) ==> v == sym_val(*self),
        decreases self,
    {
        match self {
            Symbol::Constant(n) => Some(*n),
            Symbol::Add(l, r) => match (l.evaluate(), r.evaluate()) {
                (Some(a), Some(b)) => a.checked_add(b),
                _ => None,
            },
            Symbol::Multiply(l, r) => match (l.evaluate(), r.evaluate()) {
                (Some(a), Some(b)) => a.checked_mul(b),
                _ => None,
            },
            Symbol::Concatenate(l, r) => match (l.evaluate(), r.evaluate()) {
                (Some(a), Some(b)) => concat_u64(a, b),
                _ => None,
            },
        }
    }

    /// A structurally equal copy of the expression.
    pub fn duplicate(&self) -> (r: Symbol)
        ensures
            r == *self,
        decreases self,
    {
        match self {
            Symbol::Constant(n) => Symbol::Constant(*n),
            Symbol::Add(l, r) => Symbol::Add(Box::new(l.duplicate()), Box::new(r.duplicate())),
            Symbol::Multiply(l, r) => Symbol::Multiply(
                Box::new(l.duplicate()),
                Box::new(r.duplicate()),
            ),
            Symbol::Concatenate(l, r) => Symbol::Concatenate(
                Box::new(l.duplicate()),
                Box::new(r.duplicate()),
            ),
        }
    }
}

/// The search relation: some assignment of operators between the
/// accumulator and the remaining operands reaches exactly `target`, where
/// an application whose result exceeds `u64::MAX` is a dead branch.
pub open spec fn solvable(target: u64, acc: u64, rest: Seq<u64>, concat: bool) -> bool
    decreases rest.len(),
{
    if rest.len() == 0 {
        acc == target
    } else {
        let n = rest[0];
        ||| (acc + n <= u64::MAX && solvable(target, (acc + n) as u64, rest.drop_first(), concat))
        ||| (acc * n <= u64::MAX && solvable(target, (acc * n) as u64, rest.drop_first(), concat))
        ||| (concat && concat_val(acc as nat, n as nat) <= u64::MAX && solvable(
            target,
            concat_val(acc as nat, n as nat) as u64,
            rest.drop_first(),
            concat,
        ))
    }
}

/// `e` is `base` extended by one operator application per operand of
/// `rest`, in order, with `Concatenate` allowed only when `concat` holds.
pub open spec fn is_chain(e: Symbol, base: Symbol, rest: Seq<u64>, concat: bool) -> bool
    decreases rest.len(),
{
    if rest.len() == 0 {
        e == base
    } else {
        match e {
            Symbol::Constant(_) => false,
            Symbol::Add(l, r) => *r == Symbol::Constant(rest.last()) && is_chain(
                *l,
                base,
                rest.drop_last(),
                concat,
            ),
            Symbol::Multiply(l, r) => *r == Symbol::Constant(rest.last()) && is_chain(
                *l,
                base,
                rest.drop_last(),
                concat,
            ),
            Symbol::Concatenate(l, r) => concat && *r == Symbol::Constant(rest.last())
                && is_chain(*l, base, rest.drop_last(), concat),
        }
    }
}

/// `mid` is `base` under exactly one operator application with right
/// operand `n`.
pub open spec fn chain_step(mid: Symbol, base: Symbol, n: u64, concat: bool) -> bool {
    match mid {
        Symbol::Constant(_) => false,
        Symbol::Add(l, r) => *l == base && *r == Symbol::Constant(n),
        Symbol::Multiply(l, r) => *l == base && *r == Symbol::Constant(n),
        Symbol::Concatenate(l, r) => concat && *l == base && *r == Symbol::Constant(n),
    }
}

/// A chain over `rest` on top of a single step from `base` is a chain over
/// `seq![n] + rest` on top of `base`.
pub proof fn lemma_chain_extend(
    e: Symbol,
    base: Symbol,
    mid: Symbol,
    n: u64,
    rest: Seq<u64>,
    concat: bool,
)
    requires
        is_chain(e, mid, rest, concat),
        chain_step(mid, base, n, concat),
    ensures
        is_chain(e, base, seq![n] + rest, concat),
    decreases rest.len(),
{
    let whole = seq![n] + rest;
    if rest.len() == 0 {
        assert(e == mid);
        assert(whole.last() == n);
        assert(whole.drop_last() =~= Seq::<u64>::empty());
        match e {
            Symbol::Constant(_) => {},
            Symbol::Add(l, r) => {
                assert(is_chain(*l, base, whole.drop_last(), concat));
            },
            Symbol::Multiply(l, r) => {
                assert(is_chain(*l, base, whole.drop_last(), concat));
            },
            Symbol::Concatenate(l, r) => {
                assert(is_chain(*l, base, whole.drop_last(), concat));
            },
        }
    } else {
        assert(whole.last() == rest.last());
        assert(whole.drop_last() =~= seq![n] + rest.drop_last());
        match e {
            Symbol::Constant(_) => {},
            Symbol::Add(l, r) => {
                lemma_chain_extend(*l, base, mid, n, rest.drop_last(), concat);
            },
            Symbol::Multiply(l, r) => {
                lemma_chain_extend(*l, base, mid, n, rest.drop_last(), concat);
            },
            Symbol::Concatenate(l, r) => {
                lemma_chain_extend(*l, base, mid, n, rest.drop_last(), concat);
            },
        }
    }
}

/// Depth-first backtracking over the operands from index `i` onward,
/// carrying the accumulated expression and its value.
fn solve_rec(
    solution: u64,
    symbol: &Symbol,
    acc: u64,
    remaining: &[u64],
    i: usize,
    concat: bool,
) -> (r: Option<Symbol>)
    requires
        sym_ok(*symbol),
        sym_val(*symbol) == acc,
        i <= remaining@.len(),
    ensures
        r is Some <==> solvable(solution, acc, remaining@.skip(i as int), concat),
        r matches Some(e) ==> sym_ok(e) && sym_val(e) == solution && is_chain(
            e,
            *symbol,
            remaining@.skip(i as int),
            concat,
        ),
    decreases remaining@.len() - i,
{
    let ghost rest = remaining@.skip(i as int);
    if i == remaining.len() {
        if acc == solution {
            Some(symbol.duplicate())
        } else {
            None
        }
    } else {
        let n = remaining[i];
        proof {
            assert(rest[0] == remaining@[i as int]);
            assert(rest.drop_first() =~= remaining@.skip(i + 1));
        }
        if let Some(a2) = acc.checked_add(n) {
            let cand = Symbol::Add(Box::new(symbol.duplicate()), Box::new(Symbol::Constant(n)));
            proof {
                assert(sym_ok(Symbol::Constant(n)));
                assert(sym_ok(cand));
                assert(sym_val(cand) == a2);
            }
            let res = solve_rec(solution, &cand, a2, remaining, i + 1, concat);
            if res.is_some() {
                proof {
                    let e = res->Some_0;
                    lemma_chain_extend(e, *symbol, cand, n, remaining@.skip(i + 1), concat);
                    assert(seq![n] + remaining@.skip(i + 1) =~= rest);
                }
                return res;
            }
        }
        if let Some(a2) = acc.checked_mul(n) {
            let cand = Symbol::Multiply(
                Box::new(symbol.duplicate()),
                Box::new(Symbol::Constant(n)),
            );
            proof {
                assert(sym_ok(Symbol::Constant(n)));
                assert(sym_ok(cand));
                assert(sym_val(cand) == a2);
            }
            let res = solve_rec(solution, &cand, a2, remaining, i + 1, concat);
            if res.is_some() {
                proof {
                    let e = res->Some_0;
                    lemma_chain_extend(e, *symbol, cand, n, remaining@.skip(i + 1), concat);
                    assert(seq![n] + remaining@.skip(i + 1) =~= rest);
                }
                return res;
            }
        }
        if concat {
            if let Some(a2) = concat_u64(acc, n) {
                let cand = Symbol::Concatenate(
                    Box::new(symbol.duplicate()),
                    Box::new(Symbol::Constant(n)),
                );
                proof {
                    assert(sym_ok(Symbol::Constant(n)));
                    assert(sym_ok(cand));
                    assert(sym_val(cand) == a2);
                }
                let res = solve_rec(solution, &cand, a2, remaining, i + 1, concat);
                if res.is_some() {
                    proof {
                        let e = res->Some_0;
                        lemma_chain_extend(e, *symbol, cand, n, remaining@.skip(i + 1), concat);
                        assert(seq![n] + remaining@.skip(i + 1) =~= rest);
                    }
                    return res;
                }
            }
        }
        None
    }
}

/// Search for an operator assignment over `remaining` that extends the
/// seed expression `symbol` to evaluate exactly to `solution`.  Returns a
/// witnessing expression, or `None` when no assignment matches.
pub fn solve(solution: &u64, symbol: Symbol, remaining: &[u64], concat: bool) -> (r: Option<
    Symbol,
>)
    ensures
        r is Some <==> sym_ok(symbol) && solvable(
            *solution,
            sym_val(symbol) as u64,
            remaining@,
            concat,
        ),
        r matches Some(e) ==> sym_ok(e) && sym_val(e) == *solution && is_chain(
            e,
            symbol,
            remaining@,
            concat,
        ),
        r is Some <==> exists|e: Symbol|
            #[trigger] is_chain(e, symbol, remaining@, concat) && sym_ok(e) && sym_val(e)
                == *solution,
{
    match symbol.evaluate() {
        Some(acc) => {
            proof {
                assert(remaining@.skip(0) =~= remaining@);
                lemma_solvable_iff_witness(*solution, symbol, remaining@, concat);
            }
            solve_rec(*solution, &symbol, acc, remaining, 0, concat)
        },
        None => {
            proof {
                if exists|e: Symbol|
                    #[trigger] is_chain(e, symbol, remaining@, concat) && sym_ok(e) && sym_val(e)
                        == *solution {
                    let e = choose|e: Symbol|
                        #[trigger] is_chain(e, symbol, remaining@, concat) && sym_ok(e) && sym_val(
                            e,
                        ) == *solution;
                    lemma_chain_ok(e, symbol, remaining@, concat);
                    assert(false);
                }
            }
            None
        },
    }
}

/// One calibration equation: a target and an ordered, non-empty list of
/// operands.
#[derive(Debug, PartialEq, Eq)]
pub struct CalibrationEquation {
    pub target: u64,
    pub operands: Vec<u64>,
}

impl View for CalibrationEquation {
    type V = (u64, Seq<u64>);

    open spec fn view(&self) -> (u64, Seq<u64>) {
        (self.target, self.operands@)
    }
}

impl DeepView for CalibrationEquation {
    type V = (u64, Seq<u64>);

    open spec fn deep_view(&self) -> (u64, Seq<u64>) {
        self.view()
    }
}

impl CalibrationEquation {
    /// A parsed equation always carries at least one operand.
    pub open spec fn wf(&self) -> bool {
        self.operands@.len() >= 1
    }
}

/// A malformed equation line: the index of the offending line in the input
/// (counting from zero, empty lines included) and the malformed token.
#[derive(Debug, PartialEq, Eq)]
pub struct ParseError {
    pub line: usize,
    pub token: Vec<u8>,
}

/// Whether every token is an unsigned decimal number that fits in `u64`.
pub open spec fn good_u64_tokens(toks: Seq<Seq<u8>>) -> bool {
    forall|i: int|
        0 <= i < toks.len() ==> ((#[trigger] crate::parsing::spec_uint(toks[i])) matches Some(v)
            && v <= u64::MAX)
}

/// The value of a good `u64` token.
pub open spec fn token_u64(t: Seq<u8>) -> u64 {
    (crate::parsing::spec_uint(t)->Some_0) as u64
}

/// The equation denoted by one input line of the shape
/// `<target>: <operand> <operand> ...`, or `None` when the line is
/// malformed or a number does not fit in `u64`.
pub open spec fn equation_of_line(l: Seq<u8>) -> Option<(u64, Seq<u64>)> {
    let parts = crate::parsing::spec_split_colon_space(l);
    if parts.len() != 2 {
        None
    } else if !(crate::parsing::spec_uint(parts[0]) matches Some(t) && t <= u64::MAX) {
        None
    } else {
        let toks = crate::parsing::spec_split(parts[1], 0x20);
        if good_u64_tokens(toks) {
            Some((token_u64(parts[0]), toks.map_values(|t: Seq<u8>| token_u64(t))))
        } else {
            None
        }
    }
}

/// The first token of `toks` that is not a good `u64` token.
pub open spec fn first_bad_token(toks: Seq<Seq<u8>>) -> Seq<u8>
    decreases toks.len(),
{
    if toks.len() == 0 {
        seq![]
    } else if !(crate::parsing::spec_uint(toks[0]) matches Some(v) && v <= u64::MAX) {
        toks[0]
    } else {
        first_bad_token(toks.drop_first())
    }
}

/// The token reported for a malformed line: the whole line when the
/// `": "` shape is wrong, else the target when it is not a number, else
/// the first malformed operand token.
pub open spec fn line_bad_token(l: Seq<u8>) -> Seq<u8> {
    let parts = crate::parsing::spec_split_colon_space(l);
    if parts.len() != 2 {
        l
    } else if !(crate::parsing::spec_uint(parts[0]) matches Some(t) && t <= u64::MAX) {
        parts[0]
    } else {
        first_bad_token(crate::parsing::spec_split(parts[1], 0x20))
    }
}

/// `str::split` always yields at least one piece.
pub proof fn lemma_split_rec_len(s: Seq<u8>, sep: u8, cur: Seq<u8>)
    ensures
        crate::parsing::split_rec(s, sep, cur).len() >= 1,
    decreases s.len(),
{
    if s.len() != 0 {
        if s[0] == sep {
            lemma_split_rec_len(s.drop_first(), sep, seq![]);
        } else {
            lemma_split_rec_len(s.drop_first(), sep, cur.push(s[0]));
        }
    }
}

/// Parse one non-empty line into an equation, or report the malformed
/// token.
#[verifier::loop_isolation(false)]
fn parse_equation(l: &[u8]) -> (r: Result<CalibrationEquation, Vec<u8>>)
    ensures
        r matches Ok(eq) ==> equation_of_line(l@) == Some(eq@) && eq.wf(),
        r is Err <==> equation_of_line(l@) is None,
        r matches Err(t) ==> t@ == line_bad_token(l@),
{
    let parts = crate::parsing::split_colon_space(l);
    let ghost parts_v = crate::parsing::spec_split_colon_space(l@);
    if parts.len() != 2 {
        return Err(vstd::slice::slice_to_vec(l));
    }
    proof {
        assert(parts.deep_view()[0] == parts@[0]@);
        assert(parts.deep_view()[1] == parts@[1]@);
    }
    let target = match crate::parsing::parse_u64(parts[0].as_slice()) {
        Some(t) => t,
        None => {
            return Err(vstd::slice::slice_to_vec(parts[0].as_slice()));
        },
    };
    let toks = crate::parsing::split_bytes(parts[1].as_slice(), 0x20);
    let ghost toks_v = crate::parsing::spec_split(parts_v[1], 0x20);
    let mut operands: Vec<u64> = Vec::new();
    let mut k: usize = 0;
    while k < toks.len()
        invariant
            k <= toks@.len(),
            toks.deep_view() == toks_v,
            operands@.len() == k,
            forall|j: int|
                0 <= j < k ==> ((#[trigger] crate::parsing::spec_uint(toks_v[j])) matches Some(
                v) && v <= u64::MAX),
            forall|j: int| 0 <= j < k ==> operands@[j] == token_u64(toks_v[j]),
        decreases toks@.len() - k,
    {
        proof {
            assert(toks.deep_view()[k as int] == toks@[k as int]@);
        }
        match crate::parsing::parse_u64(toks[k].as_slice()) {
            Some(v) => {
                operands.push(v);
            },
            None => {
                proof {
                    assert(parts_v.len() == parts@.len());
                    assert(crate::parsing::spec_uint(parts_v[0]) matches Some(t) && t <= u64::MAX);
                    assert(toks_v[k as int] == toks@[k as int]@);
                    assert(!(crate::parsing::spec_uint(toks_v[k as int]) matches Some(v) && v
                        <= u64::MAX));
                    assert(!good_u64_tokens(toks_v));
                    lemma_first_bad_token_at(toks_v, k as int);
                    assert(line_bad_token(l@) == first_bad_token(toks_v));
                }
                return Err(vstd::slice::slice_to_vec(toks[k].as_slice()));
            },
        }
        k = k + 1;
    }
    proof {
        assert(good_u64_tokens(toks_v));
        assert(operands@ =~= toks_v.map_values(|t: Seq<u8>| token_u64(t)));
        lemma_split_rec_len(parts_v[1], 0x20, seq![]);
    }
    Ok(CalibrationEquation { target, operands })
}

/// When the tokens before `k` are good and token `k` is bad, token `k` is
/// the first bad token.
proof fn lemma_first_bad_token_at(toks: Seq<Seq<u8>>, k: int)
    requires
        0 <= k < toks.len(),
        forall|j: int|
            0 <= j < k ==> ((#[trigger] crate::parsing::spec_uint(toks[j])) matches Some(v) && v
                <= u64::MAX),
        !((crate::parsing::spec_uint(toks[k]) matches Some(v) && v <= u64::MAX)),
    ensures
        first_bad_token(toks) == toks[k],
    decreases k,
{
    if k > 0 {
        lemma_first_bad_token_at(toks.drop_first(), k - 1);
    }
}

/// The equations denoted by a list of input lines: empty lines are
/// skipped, and one malformed line makes the whole parse fail.
pub open spec fn eqs_of_lines(ls: Seq<Seq<u8>>) -> Option<Seq<(u64, Seq<u64>)>>
    decreases ls.len(),
{
    if ls.len() == 0 {
        Some(seq![])
    } else if ls[0].len() == 0 {
        eqs_of_lines(ls.drop_first())
    } else {
        match equation_of_line(ls[0]) {
            None => None,
            Some(eq) => match eqs_of_lines(ls.drop_first()) {
                None => None,
                Some(rest) => Some(seq![eq] + rest),
            },
        }
    }
}

/// The parse of a whole input text.
pub open spec fn parse_result(s: Seq<u8>) -> Option<Seq<(u64, Seq<u64>)>> {
    eqs_of_lines(crate::parsing::spec_lines(s))
}

/// What a returned [`ParseError`] reports of the input `s`: the first
/// malformed non-empty line, and its malformed token.
pub open spec fn reported_error_ok(e: ParseError, s: Seq<u8>) -> bool {
    let ls = crate::parsing::spec_lines(s);
    &&& e.line < ls.len()
    &&& ls[e.line as int].len() != 0
    &&& equation_of_line(ls[e.line as int]) is None
    &&& forall|j: int|
        0 <= j < e.line ==> (ls[j].len() == 0 || (#[trigger] equation_of_line(ls[j])) is Some)
    &&& e.token@ == line_bad_token(ls[e.line as int])
}

/// Parse a whole input text, one equation per non-empty line, in order.
#[verifier::loop_isolation(false)]
pub fn parse_input(input: &str) -> (r: Result<Vec<CalibrationEquation>, ParseError>)
    ensures
        r is Ok <==> parse_result(input.spec_bytes()) is Some,
        r matches Ok(v) ==> Some(v.deep_view()) == parse_result(input.spec_bytes()) && forall|i:
            int| 0 <= i < v@.len() ==> (#[trigger] v@[i]).wf(),
        r matches Err(e) ==> reported_error_ok(e, input.spec_bytes()),
{
    let bytes = input.as_bytes();
    let ls = crate::parsing::lines_bytes(bytes);
    let ghost lsv = crate::parsing::spec_lines(input.spec_bytes());
    let mut out: Vec<CalibrationEquation> = Vec::new();
    let mut li: usize = 0;
    proof {
        assert(lsv.skip(0) =~= lsv);
        assert(out.deep_view() =~~= Seq::<(u64, Seq<u64>)>::empty());
        if eqs_of_lines(lsv) is Some {
            let rest = eqs_of_lines(lsv)->Some_0;
            assert(out.deep_view() + rest =~~= rest);
        }
    }
    while li < ls.len()
        invariant
            li <= ls@.len(),
            forall|j: int|
                0 <= j < li ==> (lsv[j].len() == 0 || (#[trigger] equation_of_line(lsv[j]))
                    is Some),
            forall|i: int| 0 <= i < out@.len() ==> (#[trigger] out@[i]).wf(),
            match eqs_of_lines(lsv.skip(li as int)) {
                Some(rest) => eqs_of_lines(lsv) == Some(out.deep_view() + rest),
                None => eqs_of_lines(lsv) is None,
            },
        decreases ls@.len() - li,
    {
        let ghost pre_out = out.deep_view();
        proof {
            assert(lsv.skip(li as int)[0] == lsv[li as int]);
            assert(lsv.skip(li as int).drop_first() =~= lsv.skip(li as int + 1));
            assert(ls.deep_view()[li as int] == ls@[li as int]@);
        }
        let line = &ls[li];
        if line.len() > 0 {
            match parse_equation(line.as_slice()) {
                Ok(eq) => {
                    let ghost eqv = eq@;
                    out.push(eq);
                    proof {
                        assert(out.deep_view() =~~= pre_out.push(eqv));
                        if eqs_of_lines(lsv.skip(li as int + 1)) is Some {
                            let rest = eqs_of_lines(lsv.skip(li as int + 1))->Some_0;
                            assert(pre_out + (seq![eqv] + rest) =~~= pre_out.push(eqv) + rest);
                        }
                    }
                },
                Err(t) => {
                    return Err(ParseError { line: li, token: t });
                },
            }
        }
        li = li + 1;
    }
    proof {
        assert(lsv.skip(li as int) =~= Seq::<Seq<u8>>::empty());
        assert(out.deep_view() + Seq::<(u64, Seq<u64>)>::empty() =~~= out.deep_view());
    }
    Ok(out)
}

/// Whether an equation is solvable: its first operand seeds the
/// accumulator and some operator assignment over the rest reaches the
/// target.
pub open spec fn eq_solvable(eq: (u64, Seq<u64>), concat: bool) -> bool {
    eq.1.len() >= 1 && solvable(eq.0, eq.1[0], eq.1.drop_first(), concat)
}

/// The sum of the targets of all solvable equations.
pub open spec fn sum_solvable_spec(eqs: Seq<(u64, Seq<u64>)>, concat: bool) -> nat
    decreases eqs.len(),
{
    if eqs.len() == 0 {
        0
    } else {
        (if eq_solvable(eqs[0], concat) {
            eqs[0].0 as nat
        } else {
            0
        }) + sum_solvable_spec(eqs.drop_first(), concat)
    }
}

/// Run the solver on every equation and sum the targets of the solvable
/// ones.
#[verifier::loop_isolation(false)]
pub fn sum_solvable(equations: &Vec<CalibrationEquation>, concat: bool) -> (r: u64)
    requires
        sum_solvable_spec(equations.deep_view(), concat) <= u64::MAX,
    ensures
        r == sum_solvable_spec(equations.deep_view(), concat),
{
    let ghost dv = equations.deep_view();
    let mut total: u64 = 0;
    let mut i: usize = 0;
    proof {
        assert(dv.skip(0) =~= dv);
    }
    while i < equations.len()
        invariant
            i <= equations@.len(),
            total + sum_solvable_spec(dv.skip(i as int), concat) == sum_solvable_spec(dv, concat),
        decreases equations@.len() - i,
    {
        proof {
            assert(dv.skip(i as int)[0] == dv[i as int]);
            assert(dv.skip(i as int).drop_first() =~= dv.skip(i as int + 1));
            assert(dv[i as int] == equations@[i as int].deep_view());
        }
        let eq = &equations[i];
        if eq.operands.len() > 0 {
            let first = eq.operands[0];
            let rest = vstd::slice::slice_subrange(
                eq.operands.as_slice(),
                1,
                eq.operands.len(),
            );
            proof {
                assert(rest@ =~= eq.operands@.drop_first());
                assert(sym_ok(Symbol::Constant(first)));
                assert(sym_val(Symbol::Constant(first)) == first);
            }
            let res = solve(&eq.target, Symbol::Constant(first), rest, concat);
            if res.is_some() {
                proof {
                    assert(eq_solvable(dv[i as int], concat));
                }
                total = total + eq.target;
            }
        }
        i = i + 1;
    }
    total
}

/// Parse the input and return the sum of the targets of all solvable
/// equations, under the two-operator alphabet when `concat` is false and
/// the three-operator alphabet when it is true.
pub fn solve_calibrations(input: &str, concat: bool) -> (r: Result<u64, ParseError>)
    requires
        parse_result(input.spec_bytes()) matches Some(eqs) ==> sum_solvable_spec(eqs, concat)
            <= u64::MAX,
    ensures
        r is Ok <==> parse_result(input.spec_bytes()) is Some,
        r matches Ok(v) ==> parse_result(input.spec_bytes()) matches Some(eqs) && v
            == sum_solvable_spec(eqs, concat),
        r matches Err(e) ==> reported_error_ok(e, input.spec_bytes()),
{
    match parse_input(input) {
        Ok(equations) => Ok(sum_solvable(&equations, concat)),
        Err(e) => Err(e),
    }
}

/// Alphabet monotonicity: an equation solvable without concatenation is
/// solvable with it, because the search with concatenation also allows every
/// operator chain of the search without it.
pub proof fn lemma_alphabet_monotonic(target: u64, acc: u64, rest: Seq<u64>)
    ensures
        solvable(target, acc, rest, false) ==> solvable(target, acc, rest, true),
    decreases rest.len(),
{
    if rest.len() > 0 && solvable(target, acc, rest, false) {
        let n = rest[0];
        if acc + n <= u64::MAX && solvable(target, (acc + n) as u64, rest.drop_first(), false) {
            lemma_alphabet_monotonic(target, (acc + n) as u64, rest.drop_first());
        } else {
            lemma_alphabet_monotonic(target, (acc * n) as u64, rest.drop_first());
        }
    }
}

/// Alphabet monotonicity at the equation level.
pub proof fn lemma_equation_alphabet_monotonic(eq: (u64, Seq<u64>))
    ensures
        eq_solvable(eq, false) ==> eq_solvable(eq, true),
{
    if eq_solvable(eq, false) {
        lemma_alphabet_monotonic(eq.0, eq.1[0], eq.1.drop_first());
    }
}

/// The sum over one equation removed from the list.
proof fn lemma_sum_solvable_remove(s: Seq<(u64, Seq<u64>)>, i: int, concat: bool)
    requires
        0 <= i < s.len(),
    ensures
        sum_solvable_spec(s, concat) == (if eq_solvable(s[i], concat) {
            s[i].0 as nat
        } else {
            0
        }) + sum_solvable_spec(s.remove(i), concat),
    decreases i,
{
    if i == 0 {
        assert(s.remove(0) =~= s.drop_first());
    } else {
        lemma_sum_solvable_remove(s.drop_first(), i - 1, concat);
        assert(s.remove(i).drop_first() =~= s.drop_first().remove(i - 1));
        assert(s.remove(i)[0] == s[0]);
    }
}

/// Order independence: the sum of solvable targets depends only on the
/// multiset of equations, not on their order in the list.
pub proof fn lemma_sum_solvable_permutation(
    s1: Seq<(u64, Seq<u64>)>,
    s2: Seq<(u64, Seq<u64>)>,
    concat: bool,
)
    requires
        s1.to_multiset() == s2.to_multiset(),
    ensures
        sum_solvable_spec(s1, concat) == sum_solvable_spec(s2, concat),
    decreases s1.len(),
{
    broadcast use vstd::seq_lib::group_to_multiset_ensures;

    if s1.len() == 0 {
        assert(s1.to_multiset().len() == s1.len());
        assert(s2.to_multiset().len() == s2.len());
        assert(s2.len() == 0);
    } else {
        let x = s1[0];
        assert(s1.contains(x));
        assert(s2.to_multiset().count(x) > 0);
        assert(s2.contains(x));
        let j = choose|j: int| 0 <= j < s2.len() && s2[j] == x;
        lemma_sum_solvable_remove(s2, j, concat);
        assert(s1.remove(0) =~= s1.drop_first());
        assert(s1.drop_first().to_multiset() == s1.to_multiset().remove(x));
        assert(s2.remove(j).to_multiset() == s2.to_multiset().remove(x));
        lemma_sum_solvable_permutation(s1.drop_first(), s2.remove(j), concat);
    }
}

/// A non-empty chain decomposes from the front: it is a chain over the
/// remaining operands on top of one step from the base.
proof fn lemma_chain_unextend(e: Symbol, base: Symbol, rest: Seq<u64>, concat: bool)
    requires
        is_chain(e, base, rest, concat),
        rest.len() >= 1,
    ensures
        exists|mid: Symbol|
            #[trigger] chain_step(mid, base, rest[0], concat) && is_chain(
                e,
                mid,
                rest.drop_first(),
                concat,
            ),
    decreases rest.len(),
{
    if rest.len() == 1 {
        assert(rest.last() == rest[0]);
        assert(rest.drop_last() =~= Seq::<u64>::empty());
        assert(rest.drop_first() =~= Seq::<u64>::empty());
        match e {
            Symbol::Constant(_) => {},
            Symbol::Add(l, r) => {
                assert(is_chain(*l, base, rest.drop_last(), concat));
                assert(*l == base);
                assert(chain_step(e, base, rest[0], concat));
                assert(is_chain(e, e, rest.drop_first(), concat));
            },
            Symbol::Multiply(l, r) => {
                assert(is_chain(*l, base, rest.drop_last(), concat));
                assert(*l == base);
                assert(chain_step(e, base, rest[0], concat));
                assert(is_chain(e, e, rest.drop_first(), concat));
            },
            Symbol::Concatenate(l, r) => {
                assert(is_chain(*l, base, rest.drop_last(), concat));
                assert(*l == base);
                assert(chain_step(e, base, rest[0], concat));
                assert(is_chain(e, e, rest.drop_first(), concat));
            },
        }
    } else {
        assert(rest.drop_last()[0] == rest[0]);
        assert(rest.drop_first().last() == rest.last());
        assert(rest.drop_first().drop_last() =~= rest.drop_last().drop_first());
        match e {
            Symbol::Constant(_) => {},
            Symbol::Add(l, r) => {
                lemma_chain_unextend(*l, base, rest.drop_last(), concat);
                let mid = choose|mid: Symbol|
                    #[trigger] chain_step(mid, base, rest.drop_last()[0], concat) && is_chain(
                        *l,
                        mid,
                        rest.drop_last().drop_first(),
                        concat,
                    );
                assert(is_chain(e, mid, rest.drop_first(), concat));
            },
            Symbol::Multiply(l, r) => {
                lemma_chain_unextend(*l, base, rest.drop_last(), concat);
                let mid = choose|mid: Symbol|
                    #[trigger] chain_step(mid, base, rest.drop_last()[0], concat) && is_chain(
                        *l,
                        mid,
                        rest.drop_last().drop_first(),
                        concat,
                    );
                assert(is_chain(e, mid, rest.drop_first(), concat));
            },
            Symbol::Concatenate(l, r) => {
                lemma_chain_unextend(*l, base, rest.drop_last(), concat);
                let mid = choose|mid: Symbol|
                    #[trigger] chain_step(mid, base, rest.drop_last()[0], concat) && is_chain(
                        *l,
                        mid,
                        rest.drop_last().drop_first(),
                        concat,
                    );
                assert(is_chain(e, mid, rest.drop_first(), concat));
            },
        }
    }
}

/// A well-formed chain has a well-formed base.
proof fn lemma_chain_ok(e: Symbol, base: Symbol, rest: Seq<u64>, concat: bool)
    requires
        is_chain(e, base, rest, concat),
        sym_ok(e),
    ensures
        sym_ok(base),
    decreases rest.len(),
{
    if rest.len() > 0 {
        match e {
            Symbol::Constant(_) => {},
            Symbol::Add(l, r) => {
                lemma_chain_ok(*l, base, rest.drop_last(), concat);
            },
            Symbol::Multiply(l, r) => {
                lemma_chain_ok(*l, base, rest.drop_last(), concat);
            },
            Symbol::Concatenate(l, r) => {
                lemma_chain_ok(*l, base, rest.drop_last(), concat);
            },
        }
    }
}

/// The search relation is exactly the existence of a witnessing
/// expression: `solvable` holds from a well-formed accumulator expression
/// if and only if some operator chain over the remaining operands extends
/// it, stays within `u64` everywhere, and evaluates to the target.
pub proof fn lemma_solvable_iff_witness(target: u64, base: Symbol, rest: Seq<u64>, concat: bool)
    requires
        sym_ok(base),
    ensures
        solvable(target, sym_val(base) as u64, rest, concat) <==> exists|e: Symbol|
            #[trigger] is_chain(e, base, rest, concat) && sym_ok(e) && sym_val(e) == target,
    decreases rest.len(),
{
    let acc = sym_val(base) as u64;
    if rest.len() == 0 {
        if solvable(target, acc, rest, concat) {
            assert(is_chain(base, base, rest, concat) && sym_ok(base) && sym_val(base) == target);
        }
    } else {
        let n = rest[0];
        if solvable(target, acc, rest, concat) {
            if acc + n <= u64::MAX && solvable(target, (acc + n) as u64, rest.drop_first(),
            concat) {
                let mid = Symbol::Add(Box::new(base), Box::new(Symbol::Constant(n)));
                assert(sym_ok(Symbol::Constant(n)));
                assert(sym_ok(mid) && sym_val(mid) == acc + n);
                lemma_solvable_iff_witness(target, mid, rest.drop_first(), concat);
                let e = choose|e: Symbol|
                    #[trigger] is_chain(e, mid, rest.drop_first(), concat) && sym_ok(e) && sym_val(
                        e,
                    ) == target;
                lemma_chain_extend(e, base, mid, n, rest.drop_first(), concat);
                assert(seq![n] + rest.drop_first() =~= rest);
            } else if acc * n <= u64::MAX && solvable(
                target,
                (acc * n) as u64,
                rest.drop_first(),
                concat,
            ) {
                let mid = Symbol::Multiply(Box::new(base), Box::new(Symbol::Constant(n)));
                assert(sym_ok(Symbol::Constant(n)));
                assert(sym_ok(mid) && sym_val(mid) == acc * n);
                lemma_solvable_iff_witness(target, mid, rest.drop_first(), concat);
                let e = choose|e: Symbol|
                    #[trigger] is_chain(e, mid, rest.drop_first(), concat) && sym_ok(e) && sym_val(
                        e,
                    ) == target;
                lemma_chain_extend(e, base, mid, n, rest.drop_first(), concat);
                assert(seq![n] + rest.drop_first() =~= rest);
            } else {
                let mid = Symbol::Concatenate(Box::new(base), Box::new(Symbol::Constant(n)));
                assert(sym_ok(Symbol::Constant(n)));
                assert(sym_ok(mid) && sym_val(mid) == concat_val(acc as nat, n as nat));
                lemma_solvable_iff_witness(target, mid, rest.drop_first(), concat);
                let e = choose|e: Symbol|
                    #[trigger] is_chain(e, mid, rest.drop_first(), concat) && sym_ok(e) && sym_val(
                        e,
                    ) == target;
                lemma_chain_extend(e, base, mid, n, rest.drop_first(), concat);
                assert(seq![n] + rest.drop_first() =~= rest);
            }
        }
        if exists|e: Symbol|
            #[trigger] is_chain(e, base, rest, concat) && sym_ok(e) && sym_val(e) == target {
            let e = choose|e: Symbol|
                #[trigger] is_chain(e, base, rest, concat) && sym_ok(e) && sym_val(e) == target;
            lemma_chain_unextend(e, base, rest, concat);
            let mid = choose|mid: Symbol|
                #[trigger] chain_step(mid, base, rest[0], concat) && is_chain(
                    e,
                    mid,
                    rest.drop_first(),
                    concat,
                );
            lemma_chain_ok(e, mid, rest.drop_first(), concat);
            lemma_solvable_iff_witness(target, mid, rest.drop_first(), concat);
            assert(is_chain(e, mid, rest.drop_first(), concat) && sym_ok(e) && sym_val(e)
                == target);
            assert(solvable(target, sym_val(mid) as u64, rest.drop_first(), concat));
            match mid {
                Symbol::Constant(_) => {},
                Symbol::Add(l, r) => {
                    assert(sym_val(mid) == acc + n);
                },
                Symbol::Multiply(l, r) => {
                    assert(sym_val(mid) == acc * n);
                },
                Symbol::Concatenate(l, r) => {
                    assert(sym_val(mid) == concat_val(acc as nat, n as nat));
                },
            }
        }
    }
}

/// The canonical decimal digit string of `n`, most significant digit
/// first.
pub open spec fn dec_rep(n: nat) -> Seq<u8>
    decreases n,
{
    if n < 10 {
        seq![(0x30 + n) as u8]
    } else {
        dec_rep(n / 10).push((0x30 + (n % 10)) as u8)
    }
}

pub proof fn lemma_dec_rep_len(n: nat)
    ensures
        dec_rep(n).len() == digit_count(n),
    decreases n,
{
    if n >= 10 {
        lemma_dec_rep_len(n / 10);
    }
}

pub proof fn lemma_dec_rep_val(n: nat)
    ensures
        crate::parsing::digits_val(dec_rep(n)) == n,
    decreases n,
{
    reveal_with_fuel(crate::parsing::digits_val, 3);
    if n < 10 {
        assert(dec_rep(n) =~= seq![(0x30 + n) as u8]);
        assert(dec_rep(n).drop_last() =~= Seq::<u8>::empty());
        assert(dec_rep(n).last() == (0x30 + n) as u8);
        assert(((0x30 + n) as u8) - 0x30 == n);
    } else {
        lemma_dec_rep_val(n / 10);
        assert(dec_rep(n).drop_last() =~= dec_rep(n / 10));
        assert(dec_rep(n).last() == (0x30 + (n % 10)) as u8);
        assert(((0x30 + (n % 10)) as u8) - 0x30 == n % 10);
    }
}

/// Reading digit strings: appending `t` to `s` shifts the value of `s` by
/// one decimal place per digit of `t`.
pub proof fn lemma_digits_val_append(s: Seq<u8>, t: Seq<u8>)
    ensures
        crate::parsing::digits_val(s + t) == crate::parsing::digits_val(s) * pow10(t.len())
            + crate::parsing::digits_val(t),
    decreases t.len(),
{
    let dv = |q: Seq<u8>| crate::parsing::digits_val(q);
    if t.len() == 0 {
        assert(s + t =~= s);
        assert(pow10(0) == 1);
        assert(dv(s) * 1 == dv(s)) by (nonlinear_arith);
    } else {
        let t1 = t.drop_last();
        lemma_digits_val_append(s, t1);
        assert((s + t).drop_last() =~= s + t1);
        assert((s + t).last() == t.last());
        assert(pow10(t.len()) == 10 * pow10(t1.len()));
        assert((dv(s) * pow10(t1.len()) + dv(t1)) * 10 == dv(s) * (10 * pow10(t1.len())) + dv(t1)
            * 10) by (nonlinear_arith);
    }
}

/// Concatenation really is digit concatenation: the value of
/// `Concatenate(Constant(a), Constant(b))` reads back from the digit
/// string of `a` followed by the digit string of `b`, for every `a` and
/// `b`, including `b == 0`.  Together with the contract of
/// [`Symbol::evaluate`], this pins the concatenation operator exactly.
pub proof fn lemma_concatenate_is_digit_concatenation(e: Symbol, a: u64, b: u64)
    requires
        (e matches Symbol::Concatenate(l, r) && *l == Symbol::Constant(a) && *r
            == Symbol::Constant(b)),
    ensures
        sym_val(e) == crate::parsing::digits_val(dec_rep(a as nat) + dec_rep(b as nat)),
{
    assert(sym_val(Symbol::Constant(a)) == a as nat);
    assert(sym_val(Symbol::Constant(b)) == b as nat);
    assert(sym_val(e) == concat_val(a as nat, b as nat));
    lemma_dec_rep_len(b as nat);
    lemma_dec_rep_val(a as nat);
    lemma_dec_rep_val(b as nat);
    lemma_digits_val_append(dec_rep(a as nat), dec_rep(b as nat));
}

} // verus!
