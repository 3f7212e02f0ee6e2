//! Parsing one delimited text row into exact decimal values.
//!
//! A row is a comma-separated list of decimal tokens. A token is an
//! optional sign followed by digits with at most one decimal point and at
//! least one digit; its value is kept exactly as an integer mantissa and a
//! power-of-ten scale. A token whose digits do not fit in 64 bits is
//! rejected like a malformed one, and the row error names the first
//! offending token.

use vstd::prelude::*;

verus! {

/// Byte value of the comma separator.
pub const COMMA: u8 = 44;

/// Byte value of the decimal point.
pub const DOT: u8 = 46;

/// Byte value of the minus sign.
pub const MINUS: u8 = 45;

/// Byte value of the plus sign.
pub const PLUS: u8 = 43;

/// An exact decimal number: `mantissa / 10^scale`, negated when `neg` is
/// set. The trailing label field of a row stands for the negative class
/// exactly when it `is_zero`.
#[derive(Clone, Copy, Debug, PartialEq, Eq, Structural)]
pub struct Decimal {
    pub neg: bool,
    pub mantissa: u64,
    pub scale: usize,
}

impl Decimal {
    /// A decimal stands for zero exactly when its mantissa is zero,
    /// whatever its sign or scale.
    pub open spec fn is_zero(&self) -> bool {
        self.mantissa == 0
    }
}

/// A parse failure, naming the first token that failed to parse.
#[derive(Clone, Copy, Debug, PartialEq, Eq, Structural)]
pub struct ParseError {
    pub token_index: usize,
}

/// Whether a byte is an ASCII decimal digit.
pub open spec fn is_digit(c: u8) -> bool {
    48 <= c && c <= 57
}

/// The line split at every comma. Splitting the empty line gives one
/// empty token, and every comma opens a new token, so the token count is
/// always one more than the comma count.
pub open spec fn split_commas(s: Seq<u8>) -> Seq<Seq<u8>>
    decreases s.len(),
{
    if s.len() == 0 {
        seq![Seq::<u8>::empty()]
    } else {
        let rest = split_commas(s.drop_last());
        if s.last() == COMMA {
            rest.push(Seq::<u8>::empty())
        } else {
            rest.update(rest.len() - 1, rest.last().push(s.last()))
        }
    }
}

/// The sign-stripped part of a token.
pub open spec fn token_body(t: Seq<u8>) -> Seq<u8> {
    if t.len() > 0 && (t[0] == MINUS || t[0] == PLUS) {
        t.subrange(1, t.len() as int)
    } else {
        t
    }
}

/// Whether a token carries a leading minus sign.
pub open spec fn token_neg(t: Seq<u8>) -> bool {
    t.len() > 0 && t[0] == MINUS
}

/// How many decimal digits a byte sequence holds.
pub open spec fn digit_count(s: Seq<u8>) -> nat
    decreases s.len(),
{
    if s.len() == 0 {
        0
    } else {
        digit_count(s.drop_last()) + (if is_digit(s.last()) { 1nat } else { 0nat })
    }
}

/// How many decimal points a byte sequence holds.
pub open spec fn dot_count(s: Seq<u8>) -> nat
    decreases s.len(),
{
    if s.len() == 0 {
        0
    } else {
        dot_count(s.drop_last()) + (if s.last() == DOT { 1nat } else { 0nat })
    }
}

/// The digits of `s` read as a base-10 integer, decimal points ignored.
pub open spec fn mantissa_of(s: Seq<u8>) -> nat
    decreases s.len(),
{
    if s.len() == 0 {
        0
    } else if is_digit(s.last()) {
        mantissa_of(s.drop_last()) * 10 + (s.last() - 48) as nat
    } else {
        mantissa_of(s.drop_last())
    }
}

/// How many digits stand after the last decimal point: the count from the
/// right that stops at a point.
pub open spec fn frac_digits(s: Seq<u8>) -> nat
    decreases s.len(),
{
    if s.len() == 0 {
        0
    } else if s.last() == DOT {
        0
    } else {
        frac_digits(s.drop_last()) + (if is_digit(s.last()) { 1nat } else { 0nat })
    }
}

/// The power-of-ten scale of a token body: the number of digits after the
/// decimal point, or zero when there is none.
pub open spec fn scale_of(s: Seq<u8>) -> nat {
    if dot_count(s) >= 1 {
        frac_digits(s)
    } else {
        0
    }
}

/// The shape a sign-stripped token must have: only digits and points, at
/// most one point, at least one digit.
pub open spec fn body_shape(s: Seq<u8>) -> bool {
    &&& forall|i: int| 0 <= i < s.len() ==> is_digit(#[trigger] s[i]) || s[i] == DOT
    &&& dot_count(s) <= 1
    &&& digit_count(s) >= 1
}

/// Whether a token parses: its sign-stripped body has the right shape and
/// its digits fit in 64 bits.
pub open spec fn token_valid(t: Seq<u8>) -> bool {
    &&& body_shape(token_body(t))
    &&& mantissa_of(token_body(t)) <= u64::MAX
    &&& scale_of(token_body(t)) <= usize::MAX
}

/// The decimal a valid token stands for.
pub open spec fn decimal_of(t: Seq<u8>) -> Decimal {
    Decimal {
        neg: token_neg(t),
        mantissa: mantissa_of(token_body(t)) as u64,
        scale: scale_of(token_body(t)) as usize,
    }
}

/// A prefix never holds more decimal points than the whole sequence.
proof fn lemma_dot_count_prefix(s: Seq<u8>, k: int)
    requires
        0 <= k <= s.len(),
    ensures
        dot_count(s.take(k)) <= dot_count(s),
    decreases s.len(),
{
    if k < s.len() {
        assert(s.drop_last().take(k) =~= s.take(k));
        lemma_dot_count_prefix(s.drop_last(), k);
    } else {
        assert(s.take(k) =~= s);
    }
}

/// A prefix's mantissa never exceeds the whole sequence's mantissa.
proof fn lemma_mantissa_prefix(s: Seq<u8>, k: int)
    requires
        0 <= k <= s.len(),
    ensures
        mantissa_of(s.take(k)) <= mantissa_of(s),
    decreases s.len(),
{
    if k < s.len() {
        assert(s.drop_last().take(k) =~= s.take(k));
        lemma_mantissa_prefix(s.drop_last(), k);
    } else {
        assert(s.take(k) =~= s);
    }
}

/// Parse one decimal token, with an optional leading sign. Returns `Some`
/// exactly on valid tokens, and then the decimal the token stands for.
pub fn parse_decimal(t: &[u8]) -> (r: Option<Decimal>)
    ensures
        r is Some <==> token_valid(t@),
        r is Some ==> r->0 == decimal_of(t@),
{
    let n = t.len();
    let mut start: usize = 0;
    let mut neg = false;
    if n > 0 && (t[0] == MINUS || t[0] == PLUS) {
        neg = t[0] == MINUS;
        start = 1;
    }
    let ghost body = token_body(t@);
    assert(body =~= t@.subrange(start as int, n as int));
    let mut i: usize = start;
    let mut mantissa: u64 = 0;
    let mut scale: usize = 0;
    let mut digits: usize = 0;
    let mut seen_dot = false;
    while i < n
        invariant
            start <= i <= n == t@.len(),
            body == token_body(t@),
            body =~= t@.subrange(start as int, n as int),
            neg == token_neg(t@),
            forall|k: int| 0 <= k < i - start ==> is_digit(#[trigger] body[k]) || body[k] == DOT,
            dot_count(body.take(i - start)) == if seen_dot { 1nat } else { 0nat },
            digits == digit_count(body.take(i - start)),
            digits <= i,
            scale <= i,
            mantissa == mantissa_of(body.take(i - start)),
            scale == if seen_dot { frac_digits(body.take(i - start)) } else { 0nat },
        decreases n - i,
    {
        let ghost j = i - start;
        let ghost p = body.take(j as int);
        let ghost p2 = body.take(j + 1);
        proof {
            assert(p2.drop_last() =~= p);
            assert(p2.last() == t@[i as int]);
        }
        let c = t[i];
        if c == DOT {
            if seen_dot {
                proof {
                    assert(dot_count(p2) == 2);
                    lemma_dot_count_prefix(body, j + 1);
                }
                return None;
            }
            seen_dot = true;
        } else if 48 <= c && c <= 57 {
            let d = (c - 48) as u64;
            proof {
                assert(is_digit(p2.last()));
                assert(mantissa_of(p2) == mantissa_of(p) * 10 + d);
            }
            match mantissa.checked_mul(10) {
                Some(m10) => {
                    match m10.checked_add(d) {
                        Some(m) => {
                            mantissa = m;
                        },
                        None => {
                            proof {
                                lemma_mantissa_prefix(body, j + 1);
                            }
                            return None;
                        },
                    }
                },
                None => {
                    proof {
                        lemma_mantissa_prefix(body, j + 1);
                    }
                    return None;
                },
            }
            digits = digits + 1;
            if seen_dot {
                scale = scale + 1;
            }
        } else {
            proof {
                assert(!(is_digit(body[j as int]) || body[j as int] == DOT));
            }
            return None;
        }
        i = i + 1;
    }
    proof {
        assert(body.take(n - start) =~= body);
    }
    if digits == 0 {
        return None;
    }
    Some(Decimal { neg, mantissa, scale })
}

/// The views of a sequence of byte vectors.
pub open spec fn views_of(s: Seq<Vec<u8>>) -> Seq<Seq<u8>> {
    s.map_values(|v: Vec<u8>| v@)
}

/// Split a row at every comma into its tokens.
pub fn split_row(line: &[u8]) -> (r: Vec<Vec<u8>>)
    ensures
        views_of(r@) == split_commas(line@),
{
    let n = line.len();
    let mut tokens: Vec<Vec<u8>> = Vec::new();
    let mut cur: Vec<u8> = Vec::new();
    let mut i: usize = 0;
    while i < n
        invariant
            0 <= i <= n == line@.len(),
            views_of(tokens@).push(cur@) =~= split_commas(line@.take(i as int)),
        decreases n - i,
    {
        let ghost p = line@.take(i as int);
        let ghost p2 = line@.take(i + 1);
        proof {
            assert(p2.drop_last() =~= p);
            assert(p2.last() == line@[i as int]);
        }
        let c = line[i];
        if c == COMMA {
            let ghost old_tokens = tokens@;
            let ghost old_cur = cur@;
            tokens.push(cur);
            cur = Vec::new();
            proof {
                assert(views_of(tokens@).push(cur@) =~= views_of(old_tokens).push(old_cur).push(
                    Seq::<u8>::empty(),
                ));
            }
        } else {
            let ghost old_tokens = tokens@;
            let ghost old_cur = cur@;
            cur.push(c);
            proof {
                let rest = views_of(old_tokens).push(old_cur);
                assert(views_of(tokens@).push(cur@) =~= rest.update(
                    rest.len() - 1,
                    rest.last().push(c),
                ));
            }
        }
        i = i + 1;
    }
    proof {
        assert(line@.take(n as int) =~= line@);
    }
    tokens.push(cur);
    proof {
        assert(views_of(tokens@) =~= split_commas(line@));
    }
    tokens
}

/// Parse one data row: split at commas, then parse every token as a
/// decimal. Succeeds exactly when every token is valid; otherwise the
/// error names the first invalid token, all earlier ones being valid.
pub fn parse_patient_data(line: &[u8]) -> (r: Result<Vec<Decimal>, ParseError>)
    ensures
        r is Ok <==> (forall|i: int|
            0 <= i < split_commas(line@).len() ==> token_valid(#[trigger] split_commas(line@)[i])),
        r matches Ok(v) ==> {
            &&& v@.len() == split_commas(line@).len()
            &&& forall|i: int|
                0 <= i < v@.len() ==> v@[i] == decimal_of(#[trigger] split_commas(line@)[i])
        },
        r matches Err(e) ==> {
            &&& 0 <= e.token_index < split_commas(line@).len()
            &&& !token_valid(split_commas(line@)[e.token_index as int])
            &&& forall|i: int|
                0 <= i < e.token_index ==> token_valid(#[trigger] split_commas(line@)[i])
        },
{
    let tokens = split_row(line);
    let ghost toks = split_commas(line@);
    let mut out: Vec<Decimal> = Vec::new();
    let n = tokens.len();
    let mut k: usize = 0;
    while k < n
        invariant
            0 <= k <= n == tokens@.len(),
            views_of(tokens@) == toks,
            toks == split_commas(line@),
            out@.len() == k,
            forall|i: int| 0 <= i < k ==> token_valid(#[trigger] toks[i]),
            forall|i: int| 0 <= i < k ==> out@[i] == decimal_of(#[trigger] toks[i]),
        decreases n - k,
    {
        match parse_decimal(tokens[k].as_slice()) {
            Some(d) => {
                out.push(d);
            },
            None => {
                proof {
                    assert(!token_valid(toks[k as int]));
                }
                return Err(ParseError { token_index: k });
            },
        }
        k = k + 1;
    }
    Ok(out)
}

} // verus!
