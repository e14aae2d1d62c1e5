//! The pattern compiler: parses a textual signature of whitespace-separated
//! tokens (one- or two-digit hex bytes and `?` / `??` wildcards) into a byte
//! template with a parallel concreteness mask, trimming wildcard runs from
//! both ends and recording how many leading wildcard tokens were stripped.

use vstd::prelude::*;

use crate::errors::CompileError;
use crate::scan::sig_wf;

verus! {

/// A compiled signature: the trimmed byte template, the parallel mask
/// (`true` at positions that must match exactly), and the number of leading
/// wildcard tokens trimmed away, used to correct reported offsets back into
/// the original pattern's coordinates.
pub struct Pattern {
    pub bytes: Vec<u8>,
    pub mask: Vec<bool>,
    pub leading_trim: usize,
}

impl Pattern {
    /// Compilation leaves the template anchored by concrete bytes at both
    /// ends and never empty.
    pub open spec fn wf(self) -> bool {
        sig_wf(self.bytes@, self.mask@)
    }
}

/// The token separators: ASCII whitespace.
pub open spec fn is_space(c: char) -> bool {
    c == ' ' || c == '\t' || c == '\n' || c == '\r' || c == '\u{b}' || c == '\u{c}'
}

/// Length of the leading run of non-space characters.
pub open spec fn token_len(s: Seq<char>) -> nat
    decreases s.len(),
{
    if s.len() == 0 || is_space(s[0]) {
        0
    } else {
        1 + token_len(s.drop_first())
    }
}

/// The leading token run never outruns the text, is free of spaces, and ends
/// at a space or at the end of the text.
pub proof fn lemma_token_len_bounds(s: Seq<char>)
    ensures
        token_len(s) <= s.len(),
        forall|k: int| 0 <= k < token_len(s) ==> !is_space(#[trigger] s[k]),
        token_len(s) < s.len() ==> is_space(s[token_len(s) as int]),
        s.len() > 0 && !is_space(s[0]) ==> token_len(s) >= 1,
    decreases s.len(),
{
    if s.len() == 0 || is_space(s[0]) {
    } else {
        lemma_token_len_bounds(s.drop_first());
        assert forall|k: int| 0 <= k < token_len(s) implies !is_space(#[trigger] s[k]) by {
            if k > 0 {
                assert(s.drop_first()[k - 1] == s[k]);
            }
        }
        if token_len(s) < s.len() {
            assert(s.drop_first()[token_len(s) - 1] == s[token_len(s) as int]);
        }
    }
}

/// The whitespace-separated tokens of the pattern text, in order.
pub open spec fn tokens_of(s: Seq<char>) -> Seq<Seq<char>>
    decreases s.len(),
    via tokens_of_decreases
{
    if s.len() == 0 {
        seq![]
    } else if is_space(s[0]) {
        tokens_of(s.drop_first())
    } else {
        seq![s.take(token_len(s) as int)] + tokens_of(s.skip(token_len(s) as int))
    }
}

#[via_fn]
proof fn tokens_of_decreases(s: Seq<char>) {
    lemma_token_len_bounds(s);
}

/// A wildcard marker: `?` or `??`.
pub open spec fn is_wildcard_token(t: Seq<char>) -> bool {
    ||| t.len() == 1 && t[0] == '?'
    ||| t.len() == 2 && t[0] == '?' && t[1] == '?'
}

pub open spec fn is_hex_digit(c: char) -> bool {
    ||| '0' as u32 <= c as u32 <= '9' as u32
    ||| 'a' as u32 <= c as u32 <= 'f' as u32
    ||| 'A' as u32 <= c as u32 <= 'F' as u32
}

pub open spec fn hex_digit_value(c: char) -> u8 {
    if '0' as u32 <= c as u32 <= '9' as u32 {
        (c as u32 - '0' as u32) as u8
    } else if 'a' as u32 <= c as u32 <= 'f' as u32 {
        (c as u32 - 'a' as u32 + 10) as u8
    } else {
        (c as u32 - 'A' as u32 + 10) as u8
    }
}

/// A hexadecimal byte token: one or two hex digits, case-insensitive.
pub open spec fn is_hex_token(t: Seq<char>) -> bool {
    &&& t.len() == 1 || t.len() == 2
    &&& forall|i: int| 0 <= i < t.len() ==> is_hex_digit(#[trigger] t[i])
}

pub open spec fn hex_token_value(t: Seq<char>) -> u8 {
    if t.len() == 1 {
        hex_digit_value(t[0])
    } else {
        (16 * hex_digit_value(t[0]) as int + hex_digit_value(t[1]) as int) as u8
    }
}

pub open spec fn is_valid_token(t: Seq<char>) -> bool {
    is_wildcard_token(t) || is_hex_token(t)
}

/// The template byte a token contributes: wildcards stand as zero.
pub open spec fn token_byte(t: Seq<char>) -> u8 {
    if is_wildcard_token(t) {
        0
    } else {
        hex_token_value(t)
    }
}

/// The mask bit a token contributes: concrete exactly when not a wildcard.
pub open spec fn token_concrete(t: Seq<char>) -> bool {
    !is_wildcard_token(t)
}

/// The leftmost token that is neither hex nor a wildcard, if any.
pub open spec fn first_invalid_token(toks: Seq<Seq<char>>) -> Option<Seq<char>>
    decreases toks.len(),
{
    if toks.len() == 0 {
        None
    } else if !is_valid_token(toks[0]) {
        Some(toks[0])
    } else {
        first_invalid_token(toks.drop_first())
    }
}

/// The untrimmed byte template of a valid token list.
pub open spec fn raw_bytes(toks: Seq<Seq<char>>) -> Seq<u8> {
    Seq::new(toks.len(), |i: int| token_byte(toks[i]))
}

/// The untrimmed mask of a valid token list.
pub open spec fn raw_mask(toks: Seq<Seq<char>>) -> Seq<bool> {
    Seq::new(toks.len(), |i: int| token_concrete(toks[i]))
}

/// How many wildcard positions open the mask.
pub open spec fn leading_wildcards(mask: Seq<bool>) -> nat
    decreases mask.len(),
{
    if mask.len() == 0 || mask[0] {
        0
    } else {
        1 + leading_wildcards(mask.drop_first())
    }
}

/// How many wildcard positions close the mask.
pub open spec fn trailing_wildcards(mask: Seq<bool>) -> nat
    decreases mask.len(),
{
    if mask.len() == 0 || mask.last() {
        0
    } else {
        1 + trailing_wildcards(mask.drop_last())
    }
}

/// The leading token run is the unique space-free run ended by a space or by
/// the end of the text.
proof fn lemma_token_len_is(t: Seq<char>, n: int)
    requires
        0 <= n <= t.len(),
        forall|k: int| 0 <= k < n ==> !is_space(#[trigger] t[k]),
        n == t.len() || is_space(t[n]),
    ensures
        token_len(t) == n,
    decreases n,
{
    if n == 0 {
    } else {
        let d = t.drop_first();
        assert forall|k: int| 0 <= k < n - 1 implies !is_space(#[trigger] d[k]) by {
            assert(d[k] == t[k + 1]);
        }
        if n - 1 < d.len() {
            assert(d[n - 1] == t[n]);
        }
        lemma_token_len_is(d, n - 1);
    }
}

/// Skipping a separator does not change the token list.
proof fn lemma_tokens_skip_space(s: Seq<char>, i: int)
    requires
        0 <= i < s.len(),
        is_space(s[i]),
    ensures
        tokens_of(s.skip(i)) == tokens_of(s.skip(i + 1)),
{
    let ss = s.skip(i);
    assert(ss[0] == s[i]);
    assert(ss.drop_first() =~= s.skip(i + 1));
}

/// A maximal non-space run `[i, j)` is the next token of the rest of the text.
proof fn lemma_tokens_take_token(s: Seq<char>, i: int, j: int)
    requires
        0 <= i < j <= s.len(),
        forall|k: int| i <= k < j ==> !is_space(#[trigger] s[k]),
        j == s.len() || is_space(s[j]),
    ensures
        tokens_of(s.skip(i)) == seq![s.subrange(i, j)] + tokens_of(s.skip(j)),
{
    let ss = s.skip(i);
    assert(ss[0] == s[i]);
    assert forall|k: int| 0 <= k < j - i implies !is_space(#[trigger] ss[k]) by {
        assert(ss[k] == s[k + i]);
    }
    if j - i < ss.len() {
        assert(ss[j - i] == s[j]);
    }
    lemma_token_len_is(ss, j - i);
    assert(ss.take(j - i) =~= s.subrange(i, j));
    assert(ss.skip(j - i) =~= s.skip(j));
}

/// A token list with only well-formed tokens has no invalid one.
proof fn lemma_first_invalid_none(toks: Seq<Seq<char>>)
    requires
        forall|k: int| 0 <= k < toks.len() ==> is_valid_token(#[trigger] toks[k]),
    ensures
        first_invalid_token(toks) is None,
    decreases toks.len(),
{
    if toks.len() > 0 {
        let d = toks.drop_first();
        assert forall|k: int| 0 <= k < d.len() implies is_valid_token(#[trigger] d[k]) by {
            assert(d[k] == toks[k + 1]);
        }
        lemma_first_invalid_none(d);
    }
}

/// After any run of well-formed tokens, the first malformed token is the
/// leftmost invalid one, whatever follows it.
proof fn lemma_first_invalid_locate(pre: Seq<Seq<char>>, t: Seq<char>, rest: Seq<Seq<char>>)
    requires
        forall|k: int| 0 <= k < pre.len() ==> is_valid_token(#[trigger] pre[k]),
        !is_valid_token(t),
    ensures
        first_invalid_token(pre + seq![t] + rest) == Some(t),
    decreases pre.len(),
{
    let toks = pre + seq![t] + rest;
    if pre.len() == 0 {
        assert(toks[0] == t);
    } else {
        assert(toks[0] == pre[0]);
        let d = toks.drop_first();
        assert(d =~= pre.drop_first() + seq![t] + rest);
        assert forall|k: int| 0 <= k < pre.drop_first().len() implies is_valid_token(
            #[trigger] pre.drop_first()[k],
        ) by {
            assert(pre.drop_first()[k] == pre[k + 1]);
        }
        lemma_first_invalid_locate(pre.drop_first(), t, rest);
    }
}

/// The count of leading wildcards is the unique wildcard run ended by a
/// concrete position or by the end of the mask.
proof fn lemma_leading_wildcards_is(mask: Seq<bool>, n: int)
    requires
        0 <= n <= mask.len(),
        forall|k: int| 0 <= k < n ==> !(#[trigger] mask[k]),
        n == mask.len() || mask[n],
    ensures
        leading_wildcards(mask) == n,
    decreases n,
{
    if n == 0 {
    } else {
        let d = mask.drop_first();
        assert forall|k: int| 0 <= k < n - 1 implies !(#[trigger] d[k]) by {
            assert(d[k] == mask[k + 1]);
        }
        if n - 1 < d.len() {
            assert(d[n - 1] == mask[n]);
        }
        lemma_leading_wildcards_is(d, n - 1);
    }
}

/// The count of trailing wildcards is the unique wildcard run that starts
/// right after a concrete position or at the start of the mask.
proof fn lemma_trailing_wildcards_is(mask: Seq<bool>, n: int)
    requires
        0 <= n <= mask.len(),
        forall|k: int| mask.len() - n <= k < mask.len() ==> !(#[trigger] mask[k]),
        n == mask.len() || mask[mask.len() - 1 - n],
    ensures
        trailing_wildcards(mask) == n,
    decreases n,
{
    if n == 0 {
    } else {
        assert(!mask.last());
        let d = mask.drop_last();
        assert forall|k: int| d.len() - (n - 1) <= k < d.len() implies !(#[trigger] d[k]) by {
            assert(d[k] == mask[k]);
        }
        if n - 1 < d.len() {
            assert(d[d.len() - 1 - (n - 1)] == mask[mask.len() - 1 - n]);
        }
        lemma_trailing_wildcards_is(d, n - 1);
    }
}

/// Everything compilation of a pattern text can yield.
pub ghost enum CompileOutcome {
    /// No token at all (empty or all-whitespace text).
    Empty,
    /// Some token is malformed; the leftmost such token.
    Invalid { token: Seq<char> },
    /// Every token is a wildcard, so nothing anchors the scan.
    AllWildcards,
    /// The trimmed template, its mask, and the count of stripped leading
    /// wildcard tokens.
    Compiled { bytes: Seq<u8>, mask: Seq<bool>, leading_trim: nat },
}

/// The compiler, as a function: tokenize, classify each token, build the raw
/// template and mask, then strip the wildcard runs at both ends.
pub open spec fn compile_outcome(s: Seq<char>) -> CompileOutcome {
    let toks = tokens_of(s);
    if toks.len() == 0 {
        CompileOutcome::Empty
    } else {
        match first_invalid_token(toks) {
            Some(t) => CompileOutcome::Invalid { token: t },
            None => {
                let mask = raw_mask(toks);
                let lead = leading_wildcards(mask);
                if lead == mask.len() {
                    CompileOutcome::AllWildcards
                } else {
                    let tail = trailing_wildcards(mask);
                    CompileOutcome::Compiled {
                        bytes: raw_bytes(toks).subrange(lead as int, toks.len() - tail),
                        mask: mask.subrange(lead as int, toks.len() - tail),
                        leading_trim: lead,
                    }
                }
            },
        }
    }
}

/// ASCII whitespace test for one character.
fn is_space_char(c: char) -> (b: bool)
    ensures
        b == is_space(c),
{
    c == ' ' || c == '\t' || c == '\n' || c == '\r' || c == '\u{b}' || c == '\u{c}'
}

/// Decode one hexadecimal digit; `None` exactly on non-digits.
fn hex_digit_of(c: char) -> (r: Option<u8>)
    ensures
        match r {
            Some(v) => is_hex_digit(c) && v == hex_digit_value(c) && v < 16,
            None => !is_hex_digit(c),
        },
{
    let u = c as u32;
    if 48 <= u && u <= 57 {
        Some((u - 48) as u8)
    } else if 97 <= u && u <= 102 {
        Some((u - 87) as u8)
    } else if 65 <= u && u <= 70 {
        Some((u - 55) as u8)
    } else {
        None
    }
}

/// Compile a signature text into a `Pattern`, exactly as `compile_outcome`
/// describes: split on ASCII whitespace, decode each token as a hex byte or a
/// wildcard, reject the leftmost malformed token, strip the wildcard runs at
/// both ends, and reject patterns with no token or no concrete byte.
pub fn compile_pattern(pattern: &str) -> (r: Result<Pattern, CompileError>)
    ensures
        match r {
            Ok(p) => {
                &&& compile_outcome(pattern@) matches CompileOutcome::Compiled {
                    bytes,
                    mask,
                    leading_trim,
                }
                &&& p.bytes@ == bytes
                &&& p.mask@ == mask
                &&& p.leading_trim == leading_trim
                &&& p.wf()
            },
            Err(e) => match e {
                CompileError::EmptyPattern => compile_outcome(pattern@) is Empty,
                CompileError::InvalidToken { token } => {
                    &&& compile_outcome(pattern@) matches CompileOutcome::Invalid { token: t }
                    &&& token@ == t
                },
                CompileError::AllWildcards => compile_outcome(pattern@) is AllWildcards,
            },
        },
{
    let ghost s = pattern@;
    let n = pattern.unicode_len();
    let mut sig: Vec<u8> = Vec::new();
    let mut msk: Vec<bool> = Vec::new();
    let ghost mut done: Seq<Seq<char>> = Seq::empty();
    let mut i: usize = 0;
    proof {
        assert(s.skip(0) =~= s);
        assert(done + tokens_of(s) =~= tokens_of(s));
    }
    while i < n
        invariant
            s == pattern@,
            n == s.len(),
            i <= n,
            tokens_of(s) == done + tokens_of(s.skip(i as int)),
            forall|k: int| 0 <= k < done.len() ==> is_valid_token(#[trigger] done[k]),
            sig@ == raw_bytes(done),
            msk@ == raw_mask(done),
        decreases n - i,
    {
        let c = pattern.get_char(i);
        if is_space_char(c) {
            proof {
                lemma_tokens_skip_space(s, i as int);
            }
            i += 1;
        } else {
            let mut j: usize = i + 1;
            while j < n && !is_space_char(pattern.get_char(j))
                invariant
                    s == pattern@,
                    n == s.len(),
                    i < j <= n,
                    forall|k: int| i <= k < j ==> !is_space(#[trigger] s[k]),
                decreases n - j,
            {
                j += 1;
            }
            let ghost t = s.subrange(i as int, j as int);
            let ghost rest = tokens_of(s.skip(j as int));
            proof {
                lemma_tokens_take_token(s, i as int, j as int);
                assert(done + (seq![t] + rest) =~= done + seq![t] + rest);
            }
            let tlen: usize = j - i;
            let mut byte: u8 = 0;
            let mut concrete: bool = false;
            let mut valid: bool = false;
            if tlen == 1 {
                proof {
                    assert(t.len() == 1 && t[0] == s[i as int]);
                }
                if c == '?' {
                    valid = true;
                } else {
                    match hex_digit_of(c) {
                        Some(v) => {
                            valid = true;
                            concrete = true;
                            byte = v;
                        },
                        None => {},
                    }
                }
            } else if tlen == 2 {
                let c1 = pattern.get_char(i + 1);
                proof {
                    assert(t.len() == 2 && t[0] == s[i as int] && t[1] == s[i + 1]);
                }
                if c == '?' && c1 == '?' {
                    valid = true;
                } else {
                    let d0 = hex_digit_of(c);
                    let d1 = hex_digit_of(c1);
                    match (d0, d1) {
                        (Some(a), Some(b)) => {
                            valid = true;
                            concrete = true;
                            byte = 16 * a + b;
                        },
                        _ => {},
                    }
                }
            }
            if !valid {
                proof {
                    assert(!is_valid_token(t));
                    lemma_first_invalid_locate(done, t, rest);
                }
                let token = pattern.substring_char(i, j).to_owned();
                return Err(CompileError::InvalidToken { token });
            }
            proof {
                assert(is_valid_token(t));
                assert(token_byte(t) == byte);
                assert(token_concrete(t) == concrete);
            }
            sig.push(byte);
            msk.push(concrete);
            proof {
                done = done.push(t);
                assert(sig@ =~= raw_bytes(done));
                assert(msk@ =~= raw_mask(done));
                assert(done + rest =~= done.drop_last() + seq![t] + rest);
            }
            i = j;
        }
    }
    proof {
        assert(s.skip(n as int) =~= Seq::<char>::empty());
        assert(tokens_of(s) =~= done);
        lemma_first_invalid_none(done);
    }
    let total = msk.len();
    if total == 0 {
        return Err(CompileError::EmptyPattern);
    }
    let mut lead: usize = 0;
    while lead < total && !msk[lead]
        invariant
            total == msk@.len(),
            lead <= total,
            forall|k: int| 0 <= k < lead ==> !(#[trigger] msk@[k]),
        decreases total - lead,
    {
        lead += 1;
    }
    proof {
        lemma_leading_wildcards_is(msk@, lead as int);
    }
    if lead == total {
        return Err(CompileError::AllWildcards);
    }
    let mut tail: usize = 0;
    while !msk[total - 1 - tail]
        invariant
            total == msk@.len(),
            lead < total,
            msk@[lead as int],
            tail <= total - 1 - lead,
            forall|k: int| total - tail <= k < total ==> !(#[trigger] msk@[k]),
        decreases total - tail,
    {
        tail += 1;
    }
    proof {
        lemma_trailing_wildcards_is(msk@, tail as int);
    }
    let stop = total - tail;
    let mut bytes: Vec<u8> = Vec::new();
    let mut mask: Vec<bool> = Vec::new();
    let mut k = lead;
    while k < stop
        invariant
            lead <= k <= stop <= total,
            total == msk@.len(),
            sig@.len() == total,
            bytes@ == sig@.subrange(lead as int, k as int),
            mask@ == msk@.subrange(lead as int, k as int),
        decreases stop - k,
    {
        bytes.push(sig[k]);
        mask.push(msk[k]);
        proof {
            assert(bytes@ =~= sig@.subrange(lead as int, k + 1));
            assert(mask@ =~= msk@.subrange(lead as int, k + 1));
        }
        k += 1;
    }
    proof {
        assert(mask@[0] == msk@[lead as int]);
        assert(mask@[stop - lead - 1] == msk@[stop - 1]);
    }
    Ok(Pattern { bytes, mask, leading_trim: lead })
}

} // verus!
