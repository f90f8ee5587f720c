//! Byte-level text helpers shared by the puzzle solvers: splitting input
//! into lines and tokens, and parsing decimal integers.
//!
//! All specifications are phrased over `Seq<u8>`, the byte view of the
//! input text.

use vstd::prelude::*;

verus! {

/// The UTF-8 bytes of a text, the byte view that the parsing
/// specifications are phrased over.
pub open spec fn str_bytes(s: Seq<char>) -> Seq<u8> {
    vstd::utf8::encode_utf8(s)
}

/// True for an ASCII decimal digit.
pub open spec fn is_digit(b: u8) -> bool {
    0x30 <= b <= 0x39
}

/// A non-empty run of ASCII decimal digits.
pub open spec fn is_digits(s: Seq<u8>) -> bool {
    s.len() >= 1 && forall|i: int| 0 <= i < s.len() ==> is_digit(#[trigger] s[i])
}

/// The value of a digit run, most significant digit first.
pub open spec fn digits_val(s: Seq<u8>) -> nat
    decreases s.len(),
{
    if s.len() == 0 {
        0
    } else {
        digits_val(s.drop_last()) * 10 + ((s.last() - 0x30) as nat)
    }
}

/// The number denoted by an unsigned decimal token: an optional leading
/// `+` followed by at least one digit, as `u64::from_str` accepts.
pub open spec fn spec_uint(s: Seq<u8>) -> Option<nat> {
    let digits = if s.len() >= 1 && s[0] == 0x2b {
        s.drop_first()
    } else {
        s
    };
    if is_digits(digits) {
        Some(digits_val(digits))
    } else {
        None
    }
}

/// The integer denoted by a signed decimal token: an optional `+` or `-`
/// sign followed by at least one digit, as `i64::from_str` accepts.
pub open spec fn spec_int(s: Seq<u8>) -> Option<int> {
    if s.len() >= 1 && s[0] == 0x2d {
        if is_digits(s.drop_first()) {
            Some(-(digits_val(s.drop_first()) as int))
        } else {
            None
        }
    } else {
        match spec_uint(s) {
            Some(v) => Some(v as int),
            None => None,
        }
    }
}

/// Extending a digit run can only increase its value.
pub proof fn lemma_digits_val_take_le(s: Seq<u8>, i: int)
    requires
        0 <= i <= s.len(),
    ensures
        digits_val(s.take(i)) <= digits_val(s),
    decreases s.len() - i,
{
    if i < s.len() {
        assert(s.take(i + 1).drop_last() =~= s.take(i));
        assert(digits_val(s.take(i)) <= digits_val(s.take(i + 1)));
        lemma_digits_val_take_le(s, i + 1);
        assert(s.take(s.len() as int) =~= s);
    } else {
        assert(s.take(i) =~= s);
    }
}

/// Parse a run of ASCII digits as a `u64`, rejecting empty or non-digit
/// input and values beyond `u64::MAX`.
pub fn parse_digits_u64(s: &[u8]) -> (r: Option<u64>)
    ensures
        r is Some <==> is_digits(s@) && digits_val(s@) <= u64::MAX,
        r matches Some(v) ==> v == digits_val(s@),
{
    if s.len() == 0 {
        return None;
    }
    let mut acc: u64 = 0;
    let mut i: usize = 0;
    while i < s.len()
        invariant
            0 <= i <= s@.len(),
            forall|j: int| 0 <= j < i ==> is_digit(#[trigger] s@[j]),
            acc == digits_val(s@.take(i as int)),
        decreases s@.len() - i,
    {
        let b = s[i];
        if b < 0x30 || b > 0x39 {
            return None;
        }
        let d: u64 = (b - 0x30) as u64;
        proof {
            assert(s@.take(i + 1).drop_last() =~= s@.take(i as int));
        }
        let shifted = match acc.checked_mul(10) {
            Some(x) => x,
            None => {
                proof {
                    lemma_digits_val_take_le(s@, i + 1);
                }
                return None;
            },
        };
        acc = match shifted.checked_add(d) {
            Some(x) => x,
            None => {
                proof {
                    lemma_digits_val_take_le(s@, i + 1);
                }
                return None;
            },
        };
        i = i + 1;
    }
    proof {
        assert(s@.take(i as int) =~= s@);
    }
    Some(acc)
}

/// Parse an unsigned decimal token (optional `+`, then digits) as `u64`.
pub fn parse_u64(s: &[u8]) -> (r: Option<u64>)
    ensures
        r is Some <==> (spec_uint(s@) matches Some(v) && v <= u64::MAX),
        r matches Some(x) ==> spec_uint(s@) == Some(x as nat),
{
    if s.len() >= 1 && s[0] == 0x2b {
        let rest = vstd::slice::slice_subrange(s, 1, s.len());
        proof {
            assert(rest@ =~= s@.drop_first());
        }
        parse_digits_u64(rest)
    } else {
        parse_digits_u64(s)
    }
}

/// Parse an unsigned decimal token as `u32`.
pub fn parse_u32(s: &[u8]) -> (r: Option<u32>)
    ensures
        r is Some <==> (spec_uint(s@) matches Some(v) && v <= u32::MAX),
        r matches Some(x) ==> spec_uint(s@) == Some(x as nat),
{
    match parse_u64(s) {
        Some(v) => if v <= 0xffff_ffff {
            Some(v as u32)
        } else {
            None
        },
        None => None,
    }
}

/// Parse a signed decimal token (optional `+` or `-`, then digits) as `i64`.
pub fn parse_i64(s: &[u8]) -> (r: Option<i64>)
    ensures
        r is Some <==> (spec_int(s@) matches Some(v) && i64::MIN <= v <= i64::MAX),
        r matches Some(x) ==> spec_int(s@) == Some(x as int),
{
    if s.len() >= 1 && s[0] == 0x2d {
        let rest = vstd::slice::slice_subrange(s, 1, s.len());
        proof {
            assert(rest@ =~= s@.drop_first());
        }
        match parse_digits_u64(rest) {
            Some(mag) => {
                if mag <= 0x7fff_ffff_ffff_ffff {
                    Some(-(mag as i64))
                } else if mag == 0x8000_0000_0000_0000 {
                    Some(i64::MIN)
                } else {
                    None
                }
            },
            None => None,
        }
    } else {
        match parse_u64(s) {
            Some(v) => if v <= 0x7fff_ffff_ffff_ffff {
                Some(v as i64)
            } else {
                None
            },
            None => None,
        }
    }
}

/// Parse a signed decimal token as `i32`.
pub fn parse_i32(s: &[u8]) -> (r: Option<i32>)
    ensures
        r is Some <==> (spec_int(s@) matches Some(v) && i32::MIN <= v <= i32::MAX),
        r matches Some(x) ==> spec_int(s@) == Some(x as int),
{
    match parse_i64(s) {
        Some(v) => if -0x8000_0000i64 <= v && v <= 0x7fff_ffffi64 {
            Some(v as i32)
        } else {
            None
        },
        None => None,
    }
}

/// A line with a trailing carriage return removed, as `str::lines` does for
/// lines that end in `\r\n`.
pub open spec fn strip_cr(l: Seq<u8>) -> Seq<u8> {
    if l.len() > 0 && l[l.len() - 1] == 0x0d {
        l.drop_last()
    } else {
        l
    }
}

/// Helper for [`spec_lines`]: the lines of `cur + s`, where `cur` is the
/// partial line read so far.
pub open spec fn lines_rec(s: Seq<u8>, cur: Seq<u8>) -> Seq<Seq<u8>>
    decreases s.len(),
{
    if s.len() == 0 {
        if cur.len() == 0 {
            seq![]
        } else {
            seq![cur]
        }
    } else if s[0] == 0x0a {
        seq![strip_cr(cur)] + lines_rec(s.drop_first(), seq![])
    } else {
        lines_rec(s.drop_first(), cur.push(s[0]))
    }
}

/// The lines of a byte text, as `str::lines` yields them: split at `\n`,
/// with a `\r` before the split removed, and no final empty line.
pub open spec fn spec_lines(s: Seq<u8>) -> Seq<Seq<u8>> {
    lines_rec(s, seq![])
}

/// Helper for [`spec_split`].
pub open spec fn split_rec(s: Seq<u8>, sep: u8, cur: Seq<u8>) -> Seq<Seq<u8>>
    decreases s.len(),
{
    if s.len() == 0 {
        seq![cur]
    } else if s[0] == sep {
        seq![cur] + split_rec(s.drop_first(), sep, seq![])
    } else {
        split_rec(s.drop_first(), sep, cur.push(s[0]))
    }
}

/// The pieces of `s` between occurrences of the byte `sep`, empty pieces
/// kept, as `str::split` yields them.
pub open spec fn spec_split(s: Seq<u8>, sep: u8) -> Seq<Seq<u8>> {
    split_rec(s, sep, seq![])
}

/// Helper for [`spec_split_colon_space`].
pub open spec fn split_cs_rec(s: Seq<u8>, cur: Seq<u8>) -> Seq<Seq<u8>>
    decreases s.len(),
{
    if s.len() == 0 {
        seq![cur]
    } else if s.len() >= 2 && s[0] == 0x3a && s[1] == 0x20 {
        seq![cur] + split_cs_rec(s.skip(2), seq![])
    } else {
        split_cs_rec(s.drop_first(), cur.push(s[0]))
    }
}

/// The pieces of `s` between leftmost, non-overlapping occurrences of the
/// two-byte separator `": "`.
pub open spec fn spec_split_colon_space(s: Seq<u8>) -> Seq<Seq<u8>> {
    split_cs_rec(s, seq![])
}

/// An ASCII whitespace byte, the ASCII subset of `char::is_whitespace`.
pub open spec fn is_ws(b: u8) -> bool {
    b == 0x20 || b == 0x09 || b == 0x0a || b == 0x0b || b == 0x0c || b == 0x0d
}

/// Helper for [`spec_ws_tokens`].
pub open spec fn ws_tokens_rec(s: Seq<u8>, cur: Seq<u8>) -> Seq<Seq<u8>>
    decreases s.len(),
{
    if s.len() == 0 {
        if cur.len() == 0 {
            seq![]
        } else {
            seq![cur]
        }
    } else if is_ws(s[0]) {
        (if cur.len() == 0 {
            seq![]
        } else {
            seq![cur]
        }) + ws_tokens_rec(s.drop_first(), seq![])
    } else {
        ws_tokens_rec(s.drop_first(), cur.push(s[0]))
    }
}

/// The maximal runs of non-whitespace bytes of `s`, as
/// `str::split_whitespace` yields them for ASCII text.
pub open spec fn spec_ws_tokens(s: Seq<u8>) -> Seq<Seq<u8>> {
    ws_tokens_rec(s, seq![])
}

/// A text of `n` bytes has at most `n + 1` lines, and no line is longer
/// than the text.
pub proof fn lemma_lines_rec_bounds(s: Seq<u8>, cur: Seq<u8>)
    ensures
        lines_rec(s, cur).len() <= s.len() + 1,
        forall|i: int|
            0 <= i < lines_rec(s, cur).len() ==> (#[trigger] lines_rec(s, cur)[i]).len()
                <= cur.len() + s.len(),
    decreases s.len(),
{
    if s.len() == 0 {
    } else if s[0] == 0x0a {
        lemma_lines_rec_bounds(s.drop_first(), seq![]);
        assert forall|i: int| 0 <= i < lines_rec(s, cur).len() implies (#[trigger] lines_rec(
            s,
            cur,
        )[i]).len() <= cur.len() + s.len() by {
            if i == 0 {
                assert(lines_rec(s, cur)[0] == strip_cr(cur));
            } else {
                assert(lines_rec(s, cur)[i] == lines_rec(s.drop_first(), seq![])[i - 1]);
            }
        }
    } else {
        lemma_lines_rec_bounds(s.drop_first(), cur.push(s[0]));
    }
}

/// The bounds of [`lemma_lines_rec_bounds`] for a whole text.
pub proof fn lemma_spec_lines_bounds(s: Seq<u8>)
    ensures
        spec_lines(s).len() <= s.len() + 1,
        forall|i: int|
            0 <= i < spec_lines(s).len() ==> (#[trigger] spec_lines(s)[i]).len() <= s.len(),
{
    lemma_lines_rec_bounds(s, seq![]);
}

/// Split a byte text into its lines, as `str::lines` does.
pub fn lines_bytes(s: &[u8]) -> (r: Vec<Vec<u8>>)
    ensures
        r.deep_view() == spec_lines(s@),
{
    let mut out: Vec<Vec<u8>> = Vec::new();
    let mut cur: Vec<u8> = Vec::new();
    let mut i: usize = 0;
    proof {
        assert(s@.skip(0) =~= s@);
        assert(out.deep_view() =~~= Seq::<Seq<u8>>::empty());
    }
    while i < s.len()
        invariant
            i <= s@.len(),
            spec_lines(s@) == out.deep_view() + lines_rec(s@.skip(i as int), cur@),
        decreases s@.len() - i,
    {
        let ghost pre_out = out.deep_view();
        let ghost pre_cur = cur@;
        proof {
            assert(s@.skip(i as int)[0] == s@[i as int]);
            assert(s@.skip(i as int).drop_first() =~= s@.skip(i as int + 1));
        }
        let b = s[i];
        if b == 0x0a {
            if cur.len() > 0 && cur[cur.len() - 1] == 0x0d {
                cur.pop();
            }
            proof {
                assert(cur@ =~= strip_cr(pre_cur));
            }
            out.push(cur);
            cur = Vec::new();
            proof {
                assert(out.deep_view() =~~= pre_out.push(strip_cr(pre_cur)));
                assert(out.deep_view() + lines_rec(s@.skip(i as int + 1), cur@) =~~= pre_out
                    + lines_rec(s@.skip(i as int), pre_cur));
            }
        } else {
            cur.push(b);
            proof {
                assert(cur@ == pre_cur.push(s@[i as int]));
            }
        }
        i = i + 1;
    }
    proof {
        assert(s@.skip(i as int) =~= Seq::<u8>::empty());
    }
    if cur.len() > 0 {
        let ghost pre_out = out.deep_view();
        let ghost pre_cur = cur@;
        out.push(cur);
        proof {
            assert(out.deep_view() =~~= pre_out.push(pre_cur));
            assert(out.deep_view() =~~= pre_out + lines_rec(Seq::<u8>::empty(), pre_cur));
        }
    }
    out
}

/// Split a byte text at every occurrence of `sep`, keeping empty pieces, as
/// `str::split` does.
pub fn split_bytes(s: &[u8], sep: u8) -> (r: Vec<Vec<u8>>)
    ensures
        r.deep_view() == spec_split(s@, sep),
{
    let mut out: Vec<Vec<u8>> = Vec::new();
    let mut cur: Vec<u8> = Vec::new();
    let mut i: usize = 0;
    proof {
        assert(s@.skip(0) =~= s@);
        assert(out.deep_view() =~~= Seq::<Seq<u8>>::empty());
    }
    while i < s.len()
        invariant
            i <= s@.len(),
            spec_split(s@, sep) == out.deep_view() + split_rec(s@.skip(i as int), sep, cur@),
        decreases s@.len() - i,
    {
        let ghost pre_out = out.deep_view();
        let ghost pre_cur = cur@;
        proof {
            assert(s@.skip(i as int)[0] == s@[i as int]);
            assert(s@.skip(i as int).drop_first() =~= s@.skip(i as int + 1));
        }
        let b = s[i];
        if b == sep {
            out.push(cur);
            cur = Vec::new();
            proof {
                assert(out.deep_view() =~~= pre_out.push(pre_cur));
                assert(out.deep_view() + split_rec(s@.skip(i as int + 1), sep, cur@) =~~= pre_out
                    + split_rec(s@.skip(i as int), sep, pre_cur));
            }
        } else {
            cur.push(b);
            proof {
                assert(cur@ == pre_cur.push(s@[i as int]));
            }
        }
        i = i + 1;
    }
    let ghost pre_out = out.deep_view();
    let ghost pre_cur = cur@;
    proof {
        assert(s@.skip(i as int) =~= Seq::<u8>::empty());
    }
    out.push(cur);
    proof {
        assert(out.deep_view() =~~= pre_out.push(pre_cur));
        assert(out.deep_view() =~~= pre_out + split_rec(Seq::<u8>::empty(), sep, pre_cur));
    }
    out
}

/// Split a byte text at every occurrence of the two-byte separator `": "`.
pub fn split_colon_space(s: &[u8]) -> (r: Vec<Vec<u8>>)
    ensures
        r.deep_view() == spec_split_colon_space(s@),
{
    let mut out: Vec<Vec<u8>> = Vec::new();
    let mut cur: Vec<u8> = Vec::new();
    let mut i: usize = 0;
    proof {
        assert(s@.skip(0) =~= s@);
        assert(out.deep_view() =~~= Seq::<Seq<u8>>::empty());
    }
    while i < s.len()
        invariant
            i <= s@.len(),
            spec_split_colon_space(s@) == out.deep_view() + split_cs_rec(s@.skip(i as int), cur@),
        decreases s@.len() - i,
    {
        let ghost pre_out = out.deep_view();
        let ghost pre_cur = cur@;
        proof {
            assert(s@.skip(i as int)[0] == s@[i as int]);
            if i + 1 < s@.len() {
                assert(s@.skip(i as int)[1] == s@[i as int + 1]);
            }
            assert(s@.skip(i as int).drop_first() =~= s@.skip(i as int + 1));
            if i + 2 <= s@.len() {
                assert(s@.skip(i as int).skip(2) =~= s@.skip(i as int + 2));
            }
        }
        if s[i] == 0x3a && i + 1 < s.len() && s[i + 1] == 0x20 {
            out.push(cur);
            cur = Vec::new();
            proof {
                assert(out.deep_view() =~~= pre_out.push(pre_cur));
                assert(out.deep_view() + split_cs_rec(s@.skip(i as int + 2), cur@) =~~= pre_out
                    + split_cs_rec(s@.skip(i as int), pre_cur));
            }
            i = i + 2;
        } else {
            let b = s[i];
            cur.push(b);
            proof {
                assert(cur@ == pre_cur.push(s@[i as int]));
            }
            i = i + 1;
        }
    }
    let ghost pre_out = out.deep_view();
    let ghost pre_cur = cur@;
    proof {
        assert(s@.skip(i as int) =~= Seq::<u8>::empty());
    }
    out.push(cur);
    proof {
        assert(out.deep_view() =~~= pre_out.push(pre_cur));
        assert(out.deep_view() =~~= pre_out + split_cs_rec(Seq::<u8>::empty(), pre_cur));
    }
    out
}

/// Split a byte text into maximal runs of non-whitespace bytes, as
/// `str::split_whitespace` does for ASCII text.
pub fn ws_tokens(s: &[u8]) -> (r: Vec<Vec<u8>>)
    ensures
        r.deep_view() == spec_ws_tokens(s@),
{
    let mut out: Vec<Vec<u8>> = Vec::new();
    let mut cur: Vec<u8> = Vec::new();
    let mut i: usize = 0;
    proof {
        assert(s@.skip(0) =~= s@);
        assert(out.deep_view() =~~= Seq::<Seq<u8>>::empty());
    }
    while i < s.len()
        invariant
            i <= s@.len(),
            spec_ws_tokens(s@) == out.deep_view() + ws_tokens_rec(s@.skip(i as int), cur@),
        decreases s@.len() - i,
    {
        let ghost pre_out = out.deep_view();
        let ghost pre_cur = cur@;
        proof {
            assert(s@.skip(i as int)[0] == s@[i as int]);
            assert(s@.skip(i as int).drop_first() =~= s@.skip(i as int + 1));
        }
        let b = s[i];
        if b == 0x20 || b == 0x09 || b == 0x0a || b == 0x0b || b == 0x0c || b == 0x0d {
            if cur.len() > 0 {
                out.push(cur);
                cur = Vec::new();
                proof {
                    let rest_rec = ws_tokens_rec(s@.skip(i as int + 1), Seq::<u8>::empty());
                    assert(cur@ =~= Seq::<u8>::empty());
                    assert(ws_tokens_rec(s@.skip(i as int), pre_cur) == seq![pre_cur] + rest_rec);
                    assert(out.deep_view() =~~= pre_out.push(pre_cur));
                    assert(pre_out.push(pre_cur) =~~= pre_out + seq![pre_cur]);
                    assert((pre_out + seq![pre_cur]) + rest_rec =~~= pre_out + (seq![pre_cur]
                        + rest_rec));
                }
            } else {
                proof {
                    let rest_rec = ws_tokens_rec(s@.skip(i as int + 1), Seq::<u8>::empty());
                    assert(cur@ =~= Seq::<u8>::empty());
                    assert(ws_tokens_rec(s@.skip(i as int), pre_cur) == Seq::<Seq<u8>>::empty()
                        + rest_rec);
                    assert(Seq::<Seq<u8>>::empty() + rest_rec =~~= rest_rec);
                }
            }
        } else {
            cur.push(b);
            proof {
                assert(cur@ == pre_cur.push(s@[i as int]));
            }
        }
        i = i + 1;
    }
    proof {
        assert(s@.skip(i as int) =~= Seq::<u8>::empty());
    }
    if cur.len() > 0 {
        let ghost pre_out = out.deep_view();
        let ghost pre_cur = cur@;
        out.push(cur);
        proof {
            assert(out.deep_view() =~~= pre_out.push(pre_cur));
            assert(out.deep_view() =~~= pre_out + ws_tokens_rec(Seq::<u8>::empty(), pre_cur));
        }
    }
    out
}

} // verus!
