//! Parsing a suffix of the input gives what parsing the whole input gives
//! at the position where the suffix starts, moved by that position; and
//! the laws on suffixes that follow.
use vstd::prelude::*;
use crate::ParseError;
use crate::parse::{
    spec_next_entry,
    lemma_pair_advances, spec_many_with_braces, spec_parse_many, spec_parse_pair,
    spec_parse_value,
};
use crate::scan::{
    lemma_value_prefix, spec_value_prefix, ByteClass, at_pair, lemma_newline_maybe_idempotent, lemma_whitespace_idempotent, comment_close, lemma_comment_close, lemma_escaped_inner,
    lemma_newline_maybe, lemma_run_end, lemma_whitespace, run_end, spec_auto_string,
    spec_close_brace, spec_conditional, spec_escaped_inner, spec_newline_maybe, spec_open_brace,
    spec_skip_braces, spec_skip_braces_inner, spec_skip_tokens, spec_string, spec_unquoted, spec_whitespace,
};

verus! {

/// `s` from position `k` on.
pub open spec fn suffix(s: Seq<u8>, k: int) -> Seq<u8> {
    s.subrange(k, s.len() as int)
}

/// A position result moved back by `k`.
pub open spec fn moved(r: Result<int, ParseError>, k: int) -> Result<int, ParseError> {
    match r {
        Ok(j) => Ok(j - k),
        Err(e) => Err(e),
    }
}

/// A position-and-value result moved back by `k`.
pub open spec fn moved_with<V>(r: Result<(int, V), ParseError>, k: int) -> Result<(int, V), ParseError> {
    match r {
        Ok((j, v)) => Ok((j - k, v)),
        Err(e) => Err(e),
    }
}

pub proof fn lemma_run_end_suffix(s: Seq<u8>, k: int, i: int, c: ByteClass)
    requires
        0 <= k <= s.len(),
        0 <= i <= s.len() - k,
    ensures
        run_end(suffix(s, k), i, c) == run_end(s, i + k, c) - k,
    decreases s.len() - k - i,
{
    let t = suffix(s, k);
    if i < t.len() {
        assert(t[i] == s[i + k]);
        lemma_run_end_suffix(s, k, i + 1, c);
    }
}

pub proof fn lemma_comment_close_suffix(s: Seq<u8>, k: int, i: int)
    requires
        0 <= k <= s.len(),
        0 <= i <= s.len() - k,
    ensures
        comment_close(suffix(s, k), i) == (match comment_close(s, i + k) {
            Some(m) => Some(m - k),
            None => None::<int>,
        }),
    decreases s.len() - k - i,
{
    let t = suffix(s, k);
    if i + 1 < t.len() {
        assert(t[i] == s[i + k] && t[i + 1] == s[i + 1 + k]);
        lemma_comment_close_suffix(s, k, i + 1);
    }
}

pub proof fn lemma_at_pair_suffix(s: Seq<u8>, k: int, i: int, a: u8, b: u8)
    requires
        0 <= k <= s.len(),
        0 <= i,
    ensures
        at_pair(suffix(s, k), i, a, b) == at_pair(s, i + k, a, b),
{
    let t = suffix(s, k);
    if i + 1 < t.len() {
        assert(t[i] == s[i + k] && t[i + 1] == s[i + 1 + k]);
    }
}

pub proof fn lemma_whitespace_suffix(s: Seq<u8>, k: int, i: int)
    requires
        0 <= k <= s.len(),
        0 <= i <= s.len() - k,
    ensures
        spec_whitespace(suffix(s, k), i) == moved(spec_whitespace(s, i + k), k),
    decreases s.len() - k - i,
{
    let t = suffix(s, k);
    lemma_run_end_suffix(s, k, i, ByteClass::Space);
    lemma_run_end(s, i + k, ByteClass::Space);
    let j = run_end(s, i + k, ByteClass::Space);
    lemma_at_pair_suffix(s, k, j - k, 0x2f, 0x2a);
    lemma_comment_close_suffix(s, k, j - k);
    lemma_comment_close(s, j);
    if at_pair(s, j, 0x2f, 0x2a) {
        if let Some(m) = comment_close(s, j) {
            lemma_whitespace_suffix(s, k, m + 2 - k);
        }
    }
}

pub proof fn lemma_newline_maybe_suffix(s: Seq<u8>, k: int, i: int)
    requires
        0 <= k <= s.len(),
        0 <= i <= s.len() - k,
    ensures
        spec_newline_maybe(suffix(s, k), i) == spec_newline_maybe(s, i + k) - k,
    decreases s.len() - k - i,
{
    let t = suffix(s, k);
    lemma_run_end_suffix(s, k, i, ByteClass::Blank);
    lemma_run_end(s, i + k, ByteClass::Blank);
    let j = run_end(s, i + k, ByteClass::Blank);
    lemma_at_pair_suffix(s, k, j - k, 0x2f, 0x2a);
    lemma_at_pair_suffix(s, k, j - k, 0x2f, 0x2f);
    lemma_comment_close_suffix(s, k, j - k);
    lemma_comment_close(s, j);
    lemma_run_end_suffix(s, k, j - k, ByteClass::NotNewline);
    lemma_run_end(s, j, ByteClass::NotNewline);
    if at_pair(s, j, 0x2f, 0x2f) {
        lemma_newline_maybe_suffix(s, k, run_end(s, j, ByteClass::NotNewline) - k);
    } else if at_pair(s, j, 0x2f, 0x2a) {
        if let Some(m) = comment_close(s, j) {
            lemma_newline_maybe_suffix(s, k, m + 2 - k);
        }
    }
}

pub proof fn lemma_escaped_inner_suffix(s: Seq<u8>, k: int, i: int)
    requires
        0 <= k <= s.len(),
        0 <= i <= s.len() - k,
    ensures
        spec_escaped_inner(suffix(s, k), i).0 == spec_escaped_inner(s, i + k).0 - k,
        spec_escaped_inner(suffix(s, k), i).1 == spec_escaped_inner(s, i + k).1,
    decreases s.len() - k - i,
{
    let t = suffix(s, k);
    lemma_run_end_suffix(s, k, i, ByteClass::Plain);
    lemma_run_end(s, i + k, ByteClass::Plain);
    let j = run_end(s, i + k, ByteClass::Plain);
    assert(t.subrange(i, j - k) =~= s.subrange(i + k, j));
    if 0 <= j && j + 1 < s.len() && s[j] == 0x5c {
        assert(t[j - k] == s[j] && t[j - k + 1] == s[j + 1]);
        lemma_escaped_inner_suffix(s, k, j + 2 - k);
    } else if j < s.len() {
        assert(t[j - k] == s[j]);
    }
}

pub proof fn lemma_string_suffix(s: Seq<u8>, k: int, i: int)
    requires
        0 <= k <= s.len(),
        0 <= i <= s.len() - k,
    ensures
        spec_string(suffix(s, k), i) == moved_with(spec_string(s, i + k), k),
{
    let t = suffix(s, k);
    if i < t.len() {
        assert(t[i] == s[i + k]);
        lemma_escaped_inner_suffix(s, k, i + 1);
        lemma_escaped_inner(s, i + k + 1);
        let e = spec_escaped_inner(s, i + k + 1).0;
        if e < s.len() {
            assert(t[e - k] == s[e]);
        }
    }
}

pub proof fn lemma_auto_string_suffix(s: Seq<u8>, k: int, i: int)
    requires
        0 <= k <= s.len(),
        0 <= i <= s.len() - k,
    ensures
        spec_auto_string(suffix(s, k), i) == moved_with(spec_auto_string(s, i + k), k),
{
    let t = suffix(s, k);
    lemma_string_suffix(s, k, i);
    lemma_run_end_suffix(s, k, i, ByteClass::Unquoted);
    lemma_run_end(s, i + k, ByteClass::Unquoted);
    let j = run_end(s, i + k, ByteClass::Unquoted);
    assert(t.subrange(i, j - k) =~= s.subrange(i + k, j));
}

pub proof fn lemma_unquoted_suffix(s: Seq<u8>, k: int, i: int)
    requires
        0 <= k <= s.len(),
        0 <= i <= s.len() - k,
    ensures
        spec_unquoted(suffix(s, k), i) == moved(spec_unquoted(s, i + k), k),
{
    lemma_run_end_suffix(s, k, i, ByteClass::Unquoted);
}

pub proof fn lemma_conditional_suffix(s: Seq<u8>, k: int, i: int)
    requires
        0 <= k <= s.len(),
        0 <= i <= s.len() - k,
    ensures
        spec_conditional(suffix(s, k), i) == moved(spec_conditional(s, i + k), k),
{
    let t = suffix(s, k);
    if i < t.len() {
        assert(t[i] == s[i + k]);
        lemma_run_end_suffix(s, k, i + 1, ByteClass::NotCloseBracket);
    }
}

pub proof fn lemma_open_brace_suffix(s: Seq<u8>, k: int, i: int)
    requires
        0 <= k <= s.len(),
        0 <= i <= s.len() - k,
    ensures
        spec_open_brace(suffix(s, k), i) == moved(spec_open_brace(s, i + k), k),
{
    let t = suffix(s, k);
    lemma_newline_maybe_suffix(s, k, i);
    lemma_newline_maybe(s, i + k);
    let a = spec_newline_maybe(s, i + k);
    if a < s.len() {
        assert(t[a - k] == s[a]);
        lemma_newline_maybe_suffix(s, k, a + 1 - k);
    }
}

pub proof fn lemma_close_brace_suffix(s: Seq<u8>, k: int, c: int)
    requires
        0 <= k <= s.len(),
        0 <= c <= s.len() - k,
    ensures
        spec_close_brace(suffix(s, k), c) == spec_close_brace(s, c + k) - k,
{
    let t = suffix(s, k);
    if c < t.len() {
        assert(t[c] == s[c + k]);
    }
}

pub proof fn lemma_skip_tokens_suffix(s: Seq<u8>, k: int, i: int, depth: nat, after_key: bool)
    requires
        0 <= k <= s.len(),
        0 <= i <= s.len() - k,
    ensures
        spec_skip_tokens(suffix(s, k), i, depth, after_key) == spec_skip_tokens(s, i + k, depth, after_key) - k,
{
    if after_key {
        lemma_skip_value_suffix(s, k, i, depth);
    } else {
        lemma_skip_key_suffix(s, k, i, depth);
    }
}

#[verifier::spinoff_prover]
proof fn lemma_skip_value_suffix(s: Seq<u8>, k: int, i: int, depth: nat)
    requires
        0 <= k <= s.len(),
        0 <= i <= s.len() - k,
    ensures
        spec_skip_tokens(suffix(s, k), i, depth, true) == spec_skip_tokens(s, i + k, depth, true) - k,
    decreases s.len() - k - i, 1nat,
{
    let t = suffix(s, k);
    lemma_value_prefix_suffix(s, k, i);
    lemma_value_prefix(s, i + k);
    if let Ok(a) = spec_value_prefix(s, i + k) {
        assert(spec_value_prefix(t, i) == Ok::<int, ParseError>(a - k));
        if a < s.len() {
            assert(t[a - k] == s[a]);
            crate::scan::lemma_conditional(s, a);
            lemma_conditional_suffix(s, k, a - k);
            lemma_run_end(s, a, ByteClass::Unquoted);
            lemma_run_end_suffix(s, k, a - k, ByteClass::Unquoted);
            lemma_escaped_inner(s, a + 1);
            lemma_escaped_inner_suffix(s, k, a + 1 - k);
            if s[a] == 0x5b {
                if let Ok(b) = spec_conditional(s, a) {
                    lemma_skip_key_suffix(s, k, b - k, depth);
                }
            } else if s[a] == 0x7b || s[a] == 0x7d || s[a] == 0x0a || s[a] == 0x0d {
                lemma_skip_key_suffix(s, k, a - k, depth);
            } else if s[a] == 0x22 {
                let e = spec_escaped_inner(s, a + 1).0;
                if e < s.len() {
                    lemma_skip_key_suffix(s, k, e + 1 - k, depth);
                }
            } else {
                let j = run_end(s, a, ByteClass::Unquoted);
                if j > a {
                    lemma_skip_key_suffix(s, k, j - k, depth);
                } else {
                    lemma_skip_key_suffix(s, k, a + 1 - k, depth);
                }
            }
        }
    }
}

#[verifier::spinoff_prover]
proof fn lemma_skip_key_suffix(s: Seq<u8>, k: int, i: int, depth: nat)
    requires
        0 <= k <= s.len(),
        0 <= i <= s.len() - k,
    ensures
        spec_skip_tokens(suffix(s, k), i, depth, false) == spec_skip_tokens(s, i + k, depth, false) - k,
    decreases s.len() - k - i, 0nat,
{
    let t = suffix(s, k);
    lemma_newline_maybe_suffix(s, k, i);
    lemma_newline_maybe(s, i + k);
    let a = spec_newline_maybe(s, i + k);
    if a < s.len() {
        assert(t[a - k] == s[a]);
        crate::scan::lemma_conditional(s, a);
        lemma_conditional_suffix(s, k, a - k);
        lemma_run_end(s, a, ByteClass::Unquoted);
        lemma_run_end_suffix(s, k, a - k, ByteClass::Unquoted);
        lemma_escaped_inner(s, a + 1);
        lemma_escaped_inner_suffix(s, k, a + 1 - k);
        if s[a] == 0x7b {
            lemma_skip_key_suffix(s, k, a + 1 - k, depth + 1);
        } else if s[a] == 0x7d {
            if depth != 0 {
                lemma_skip_key_suffix(s, k, a + 1 - k, (depth - 1) as nat);
            }
        } else if s[a] == 0x22 {
            let e = spec_escaped_inner(s, a + 1).0;
            if e < s.len() {
                lemma_skip_value_suffix(s, k, e + 1 - k, depth);
            }
        } else if s[a] == 0x5b {
            if let Ok(b) = spec_conditional(s, a) {
                lemma_skip_key_suffix(s, k, b - k, depth);
            }
        } else {
            let j = run_end(s, a, ByteClass::Unquoted);
            if j > a {
                lemma_skip_value_suffix(s, k, j - k, depth);
            } else {
                lemma_skip_key_suffix(s, k, a + 1 - k, depth);
            }
        }
    }
}

pub proof fn lemma_skip_braces_suffix(s: Seq<u8>, k: int, i: int)
    requires
        0 <= k <= s.len(),
        0 <= i <= s.len() - k,
    ensures
        spec_skip_braces(suffix(s, k), i) == moved(spec_skip_braces(s, i + k), k),
{
    lemma_open_brace_suffix(s, k, i);
    crate::scan::lemma_open_brace(s, i + k);
    if let Ok(b) = spec_open_brace(s, i + k) {
        lemma_skip_tokens_suffix(s, k, b - k, 0, false);
        crate::scan::lemma_skip_braces_inner(s, b, 0);
        lemma_close_brace_suffix(s, k, spec_skip_braces_inner(s, b, 0) - k);
    }
}

pub proof fn lemma_value_prefix_suffix(s: Seq<u8>, k: int, i: int)
    requires
        0 <= k <= s.len(),
        0 <= i <= s.len() - k,
    ensures
        spec_value_prefix(suffix(s, k), i) == moved(spec_value_prefix(s, i + k), k),
{
    let t = suffix(s, k);
    lemma_whitespace_suffix(s, k, i);
    lemma_whitespace(s, i + k);
    if let Ok(a) = spec_whitespace(s, i + k) {
        if a < s.len() {
            assert(t[a - k] == s[a]);
            lemma_whitespace_suffix(s, k, a + 1 - k);
        }
    }
}

#[verifier::spinoff_prover]
pub proof fn lemma_value_suffix(s: Seq<u8>, k: int, i: int)
    requires
        0 <= k <= s.len(),
        0 <= i <= s.len() - k,
    ensures
        spec_parse_value(suffix(s, k), i) == moved_with(spec_parse_value(s, i + k), k),
    decreases s.len() - k - i, 1nat,
{
    let t = suffix(s, k);
    lemma_value_prefix_suffix(s, k, i);
    lemma_value_prefix(s, i + k);
    if let Ok(a) = spec_value_prefix(s, i + k) {
        assert(spec_value_prefix(t, i) == Ok::<int, ParseError>(a - k));
        if 0 <= a < s.len() && s[a] == 0x5b {
            assert(t[a - k] == s[a]);
            lemma_conditional_suffix(s, k, a - k);
            crate::scan::lemma_conditional(s, a);
            if let Ok(b) = spec_conditional(s, a) {
                lemma_block_suffix(s, k, b - k);
            }
        } else if 0 <= a < s.len() && (s[a] == 0x7b || s[a] == 0x0a || s[a] == 0x0d) {
            assert(t[a - k] == s[a]);
            lemma_newline_maybe_suffix(s, k, a - k);
            lemma_newline_maybe(s, a);
            lemma_block_suffix(s, k, spec_newline_maybe(s, a) - k);
        } else {
            if a < s.len() {
                assert(t[a - k] == s[a]);
            }
            lemma_auto_string_suffix(s, k, a - k);
        }
    }
}

pub proof fn lemma_block_suffix(s: Seq<u8>, k: int, i: int)
    requires
        0 <= k <= s.len(),
        0 <= i <= s.len() - k,
    ensures
        spec_many_with_braces(suffix(s, k), i) == moved_with(spec_many_with_braces(s, i + k), k),
    decreases s.len() - k - i, 0nat,
{
    lemma_open_brace_suffix(s, k, i);
    crate::scan::lemma_open_brace(s, i + k);
    if let Ok(b) = spec_open_brace(s, i + k) {
        lemma_many_suffix(s, k, b - k);
        crate::parse::lemma_many_advances(s, b);
        if let Ok((c, _)) = spec_parse_many(s, b) {
            lemma_close_brace_suffix(s, k, c - k);
        }
    }
}

pub proof fn lemma_many_suffix(s: Seq<u8>, k: int, i: int)
    requires
        0 <= k <= s.len(),
        0 <= i <= s.len() - k,
    ensures
        spec_parse_many(suffix(s, k), i) == moved_with(spec_parse_many(s, i + k), k),
    decreases s.len() - k - i, 1nat,
{
    let t = suffix(s, k);
    lemma_newline_maybe_suffix(s, k, i);
    lemma_newline_maybe(s, i + k);
    let a = spec_newline_maybe(s, i + k);
    if a < s.len() {
        assert(t[a - k] == s[a]);
        if s[a] != 0x7d {
            lemma_pair_suffix(s, k, a - k);
            lemma_pair_advances(s, a);
            if let Ok((b, _)) = spec_parse_pair(s, a) {
                lemma_many_suffix(s, k, b - k);
            }
        }
    }
}

pub proof fn lemma_pair_suffix(s: Seq<u8>, k: int, i: int)
    requires
        0 <= k <= s.len(),
        0 <= i <= s.len() - k,
    ensures
        spec_parse_pair(suffix(s, k), i) == moved_with(spec_parse_pair(s, i + k), k),
    decreases s.len() - k - i, 0nat,
{
    lemma_auto_string_suffix(s, k, i);
    crate::scan::lemma_auto_string(s, i + k);
    if let Ok((a, _)) = spec_auto_string(s, i + k) {
        lemma_value_suffix(s, k, a - k);
    }
}

proof fn lemma_run_end_space_then_blank(s: Seq<u8>, i: int)
    requires
        0 <= i <= s.len(),
    ensures
        run_end(s, i, ByteClass::Blank) == run_end(s, run_end(s, i, ByteClass::Space), ByteClass::Blank),
    decreases s.len() - i,
{
    if i < s.len() && ByteClass::Space.contains(s[i]) {
        lemma_run_end_space_then_blank(s, i + 1);
    }
}

/// Skipping blanks and comments of both kinds from `i` ends where it ends
/// from the end of the spaces, tabs and inline comments at `i`.
pub proof fn lemma_newline_maybe_after_whitespace(s: Seq<u8>, i: int)
    requires
        0 <= i <= s.len(),
    ensures
        spec_whitespace(s, i) matches Ok(a) ==> spec_newline_maybe(s, i) == spec_newline_maybe(s, a),
    decreases s.len() - i,
{
    lemma_run_end_space_then_blank(s, i);
    lemma_run_end(s, i, ByteClass::Space);
    let j = run_end(s, i, ByteClass::Space);
    lemma_comment_close(s, j);
    if at_pair(s, j, 0x2f, 0x2a) {
        assert(run_end(s, j, ByteClass::Blank) == j);
        if let Some(m) = comment_close(s, j) {
            lemma_newline_maybe_after_whitespace(s, m + 2);
        }
    }
}

/// Starting a run of pairs after blanks and comments changes nothing.
pub proof fn lemma_many_after_newline_maybe(s: Seq<u8>, i: int)
    requires
        0 <= i <= s.len(),
    ensures
        spec_parse_many(s, spec_newline_maybe(s, i)) == spec_parse_many(s, i),
{
    lemma_newline_maybe_idempotent(s, i);
}

/// Opening a block after blanks and comments changes nothing.
pub proof fn lemma_block_after_newline_maybe(s: Seq<u8>, i: int)
    requires
        0 <= i <= s.len(),
    ensures
        spec_many_with_braces(s, spec_newline_maybe(s, i)) == spec_many_with_braces(s, i),
{
    lemma_newline_maybe_idempotent(s, i);
}

/// A block is a run of pairs between braces: parsing `{` followed by `t`
/// as a block gives the pairs of `t`, and goes on past the `}` that ends
/// them, or to the end of the input when there is none.
pub proof fn lemma_block_is_braced_pairs(t: Seq<u8>)
    ensures
        spec_many_with_braces(seq![0x7bu8] + t, 0) == (match spec_parse_many(t, 0) {
            Ok((c, ps)) => Ok((if c < t.len() { c + 2 } else { c + 1 }, ps)),
            Err(e) => Err(e),
        }),
{
    let s = seq![0x7bu8] + t;
    assert(suffix(s, 1) =~= t);
    assert(run_end(s, 0, ByteClass::Blank) == 0);
    assert(spec_newline_maybe(s, 0) == 0);
    lemma_many_suffix(s, 1, 0);
    lemma_newline_maybe(s, 1);
    lemma_many_after_newline_maybe(s, 1);
    crate::parse::lemma_many_advances(s, 1);
    if let Ok((c, _)) = spec_parse_many(s, 1) {
        if c < s.len() {
            assert(s[c] == 0x7d);
        }
    }
}

/// Conditionals are not evaluated: a conditional in front of a block that
/// starts with `{` or a line break (after spaces, tabs and inline comments)
/// leaves the value what the block alone gives.
#[verifier::spinoff_prover]
#[verifier::rlimit(40)]
pub proof fn lemma_conditional_block(cond: Seq<u8>, t: Seq<u8>)
    requires
        forall|j: int| 0 <= j < cond.len() ==> #[trigger] cond[j] != 0x5du8,
        spec_whitespace(t, 0) matches Ok(a) && 0 <= a < t.len() && (t[a] == 0x7b || t[a] == 0x0a
            || t[a] == 0x0d),
    ensures
        spec_parse_value(seq![0x5bu8] + cond + seq![0x5du8] + t, 0) == moved_with(
            spec_parse_value(t, 0),
            -(cond.len() + 2 as int),
        ),
{
    let s = seq![0x5bu8] + cond + seq![0x5du8] + t;
    let p: int = cond.len() + 2 as int;
    assert(spec_value_prefix(s, 0) == Ok::<int, ParseError>(0)) by {
        assert(run_end(s, 0, ByteClass::Space) == 0);
        assert(spec_whitespace(s, 0) == Ok::<int, ParseError>(0));
    }
    assert(spec_conditional(s, 0) == Ok::<int, ParseError>(p)) by {
        assert forall|j: int| 1 <= j < cond.len() + 1 implies ByteClass::NotCloseBracket.contains(#[trigger] s[j]) by {
            assert(s[j] == cond[j - 1]);
        }
        assert(s[cond.len() + 1 as int] == 0x5du8);
        crate::scan::lemma_run_end_exact(s, 1, cond.len() + 1 as int, ByteClass::NotCloseBracket);
    }
    assert(spec_parse_value(s, 0) == (match spec_many_with_braces(s, p) {
        Err(e) => Err(e),
        Ok((c, ps)) => Ok((c, crate::ItemModel::Block(ps))),
    }));
    assert(spec_many_with_braces(s, p) == moved_with(spec_many_with_braces(t, 0), -p)) by {
        assert(suffix(s, p) =~= t);
        lemma_block_suffix(s, p, 0);
    }
    let a = spec_whitespace(t, 0)->Ok_0;
    assert(spec_parse_value(t, 0) == (match spec_many_with_braces(t, 0) {
        Err(e) => Err(e),
        Ok((c, ps)) => Ok((c, crate::ItemModel::Block(ps))),
    })) by {
        lemma_whitespace(t, 0);
        assert(spec_value_prefix(t, 0) == Ok::<int, ParseError>(a));
        lemma_newline_maybe_after_whitespace(t, 0);
        lemma_block_after_newline_maybe(t, 0);
        lemma_block_after_newline_maybe(t, a);
    }
}

/// One step of the walk over top-level entries, told through the scanners
/// run on what is left of the input: the entry (what follows it, its key
/// and its block) or why there is none, and what is left after the step.
pub open spec fn spec_walk_step(t: Seq<u8>) -> (Option<Result<(Seq<u8>, Seq<u8>, Seq<u8>), ParseError>>, Seq<u8>) {
    let s1 = suffix(t, spec_newline_maybe(t, 0));
    if s1.len() == 0 || s1[0] == 0x7d {
        (None, s1)
    } else {
        match spec_auto_string(s1, 0) {
            Err(e) => (Some(Err(e)), s1),
            Ok((b, key)) => {
                let s2 = suffix(s1, b);
                match spec_skip_braces(s2, 0) {
                    Err(e) => (Some(Err(e)), s2),
                    Ok(d) => (Some(Ok((suffix(s2, d), key, s2.subrange(0, d)))), suffix(s2, d)),
                }
            },
        }
    }
}

/// A step of the walk over top-level entries is the scanners run one after
/// the other on what each leaves.
pub proof fn lemma_next_entry_by_suffixes(t: Seq<u8>)
    ensures
        ({
            let (step, next) = spec_next_entry(t);
            let (walk, left) = spec_walk_step(t);
            &&& left == suffix(t, next)
            &&& match step {
                None => walk is None,
                Some(Err(e)) => walk == Some(Err::<(Seq<u8>, Seq<u8>, Seq<u8>), ParseError>(e)),
                Some(Ok((b, key, d))) => walk == Some(
                    Ok::<(Seq<u8>, Seq<u8>, Seq<u8>), ParseError>(
                        (suffix(t, d), key, t.subrange(b, d)),
                    ),
                ),
            }
        }),
{
    let a = spec_newline_maybe(t, 0);
    lemma_newline_maybe(t, 0);
    let s1 = suffix(t, a);
    if a < t.len() {
        assert(s1[0] == t[a]);
    }
    lemma_auto_string_suffix(t, a, 0);
    crate::scan::lemma_auto_string(t, a);
    if let Ok((b, key)) = spec_auto_string(t, a) {
        let s2 = suffix(s1, b - a);
        assert(s2 =~= suffix(t, b));
        lemma_skip_braces_suffix(t, b, 0);
        crate::scan::lemma_open_brace(t, b);
        if let Ok(d) = spec_skip_braces(t, b) {
            if let Ok(bb) = spec_open_brace(t, b) {
                crate::scan::lemma_skip_braces_inner(t, bb, 0);
            }
            assert(suffix(s2, d - b) =~= suffix(t, d));
            assert(s2.subrange(0, d - b) =~= t.subrange(b, d));
        }
    }
}

/// Whether `s[i..j]` is made of spaces, tabs and closed `/* */` comments
/// only (a comment ending at its first `*/`).
pub open spec fn spaces_and_comments(s: Seq<u8>, i: int, j: int) -> bool
    decreases j - i,
{
    if i >= j {
        i == j
    } else if 0 <= i < s.len() && ByteClass::Space.contains(s[i]) {
        spaces_and_comments(s, i + 1, j)
    } else if at_pair(s, i, 0x2f, 0x2a) {
        match comment_close(s, i) {
            Some(m) => {
                proof {
                    lemma_comment_close(s, i);
                }
                m + 2 <= j && spaces_and_comments(s, m + 2, j)
            },
            None => false,
        }
    } else {
        false
    }
}

proof fn lemma_spaces_before(s: Seq<u8>, x: int, y: int, j: int)
    requires
        0 <= x <= y <= j,
        y <= s.len(),
        forall|k: int| x <= k < y ==> ByteClass::Space.contains(#[trigger] s[k]),
        spaces_and_comments(s, y, j),
    ensures
        spaces_and_comments(s, x, j),
    decreases y - x,
{
    if x < y {
        lemma_spaces_before(s, x + 1, y, j);
    }
}

/// What `whitespace` skips is spaces, tabs and closed inline comments, so
/// every line break it skips lies inside a comment; what it leaves starts
/// with neither a space, a tab nor `/*`, and skipping again on it skips
/// nothing.
pub proof fn lemma_whitespace_shape(s: Seq<u8>, i: int)
    requires
        0 <= i <= s.len(),
    ensures
        spec_whitespace(s, i) matches Ok(j) ==> {
            &&& i <= j <= s.len()
            &&& spaces_and_comments(s, i, j)
            &&& !(j < s.len() && ByteClass::Space.contains(s[j]))
            &&& !at_pair(s, j, 0x2f, 0x2a)
            &&& spec_whitespace(suffix(s, j), 0) == Ok::<int, ParseError>(0)
        },
    decreases s.len() - i,
{
    lemma_whitespace(s, i);
    lemma_whitespace_idempotent(s, i);
    lemma_run_end(s, i, ByteClass::Space);
    let y = run_end(s, i, ByteClass::Space);
    lemma_comment_close(s, y);
    if let Ok(j) = spec_whitespace(s, i) {
        lemma_whitespace_suffix(s, j, 0);
        if at_pair(s, y, 0x2f, 0x2a) {
            let m = comment_close(s, y)->Some_0;
            lemma_whitespace_shape(s, m + 2);
            lemma_whitespace(s, m + 2);
            assert(spaces_and_comments(s, y, j));
        } else {
            assert(y == j);
        }
        lemma_spaces_before(s, i, y, j);
    }
}

} // verus!
