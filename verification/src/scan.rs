//! Byte-level pieces of the keyvalues grammar.
use vstd::prelude::*;
use crate::ParseError;

verus! {

/// `nom::character::is_space`: true exactly for the ASCII space and the
/// horizontal tab.
#[verifier::external_body]
fn is_space(c: u8) -> (r: bool)
    ensures
        r == (c == 0x20u8 || c == 0x09u8),
{
    nom::character::is_space(c)
}

/// The sets of bytes that the scanner runs over.
#[derive(Clone, Copy)]
pub enum ByteClass {
    /// Space and tab.
    Space,
    /// `\n` and `\r`.
    Newline,
    /// Space, tab, `\n` and `\r`.
    Blank,
    /// Anything but `\n` and `\r`.
    NotNewline,
    /// Anything that may stand in an unquoted string: not `"`, a brace, a
    /// bracket, or a blank.
    Unquoted,
    /// Anything but a backslash and a double quote.
    Plain,
    /// Anything but `]`.
    NotCloseBracket,
}

impl ByteClass {
    pub open spec fn contains(self, c: u8) -> bool {
        match self {
            ByteClass::Space => c == 0x20 || c == 0x09,
            ByteClass::Newline => c == 0x0a || c == 0x0d,
            ByteClass::Blank => c == 0x20 || c == 0x09 || c == 0x0a || c == 0x0d,
            ByteClass::NotNewline => !(c == 0x0a || c == 0x0d),
            ByteClass::Unquoted => !(c == 0x22 || c == 0x7b || c == 0x7d || c == 0x5b || c == 0x5d
                || c == 0x09 || c == 0x20 || c == 0x0a || c == 0x0d),
            ByteClass::Plain => !(c == 0x5c || c == 0x22),
            ByteClass::NotCloseBracket => c != 0x5d,
        }
    }

    pub fn matches(self, c: u8) -> (r: bool)
        ensures
            r == self.contains(c),
    {
        match self {
            ByteClass::Space => is_space(c),
            ByteClass::Newline => c == 0x0a || c == 0x0d,
            ByteClass::Blank => is_space(c) || c == 0x0a || c == 0x0d,
            ByteClass::NotNewline => !(c == 0x0a || c == 0x0d),
            ByteClass::Unquoted => !(c == 0x22 || c == 0x7b || c == 0x7d || c == 0x5b || c == 0x5d
                || c == 0x09 || c == 0x20 || c == 0x0a || c == 0x0d),
            ByteClass::Plain => !(c == 0x5c || c == 0x22),
            ByteClass::NotCloseBracket => c != 0x5d,
        }
    }
}

/// The end of the longest run of bytes of class `k` that starts at `i`.
pub open spec fn run_end(s: Seq<u8>, i: int, k: ByteClass) -> int
    decreases s.len() - i,
{
    if 0 <= i < s.len() && k.contains(s[i]) {
        run_end(s, i + 1, k)
    } else {
        i
    }
}

pub proof fn lemma_run_end(s: Seq<u8>, i: int, k: ByteClass)
    ensures
        i <= run_end(s, i, k),
        0 <= i <= s.len() ==> run_end(s, i, k) <= s.len(),
        forall|j: int| i <= j < run_end(s, i, k) ==> k.contains(#[trigger] s[j]),
        0 <= run_end(s, i, k) < s.len() ==> !k.contains(s[run_end(s, i, k)]),
        0 <= i < s.len() && k.contains(s[i]) ==> run_end(s, i, k) > i,
    decreases s.len() - i,
{
    if 0 <= i < s.len() && k.contains(s[i]) {
        lemma_run_end(s, i + 1, k);
    }
}

/// Skips the run of bytes of class `k` that starts at `i`.
pub(crate) fn take_while(s: &[u8], i: usize, k: ByteClass) -> (j: usize)
    requires
        i <= s@.len(),
    ensures
        j == run_end(s@, i as int, k),
        i <= j <= s@.len(),
{
    let mut j = i;
    while j < s.len() && k.matches(s[j])
        invariant
            i <= j <= s@.len(),
            run_end(s@, i as int, k) == run_end(s@, j as int, k),
        decreases s@.len() - j,
    {
        j = j + 1;
    }
    j
}

/// Whether the bytes `a` and `b` stand at `i` and `i + 1`.
pub open spec fn at_pair(s: Seq<u8>, i: int, a: u8, b: u8) -> bool {
    0 <= i && i + 1 < s.len() && s[i] == a && s[i + 1] == b
}

/// The first position at or after `i` where `*/` starts.
pub open spec fn comment_close(s: Seq<u8>, i: int) -> Option<int>
    decreases s.len() - i,
{
    if 0 <= i && i + 1 < s.len() {
        if s[i] == 0x2a && s[i + 1] == 0x2f {
            Some(i)
        } else {
            comment_close(s, i + 1)
        }
    } else {
        None
    }
}

pub proof fn lemma_comment_close(s: Seq<u8>, i: int)
    ensures
        comment_close(s, i) matches Some(k) ==> i <= k && k + 2 <= s.len() && at_pair(s, k, 0x2a, 0x2f),
    decreases s.len() - i,
{
    if 0 <= i && i + 1 < s.len() && !(s[i] == 0x2a && s[i + 1] == 0x2f) {
        lemma_comment_close(s, i + 1);
    }
}

fn find_comment_close(s: &[u8], i: usize) -> (r: Option<usize>)
    requires
        i <= s@.len(),
    ensures
        r matches Some(k) ==> comment_close(s@, i as int) == Some(k as int),
        r is None ==> comment_close(s@, i as int) is None,
{
    let mut j = i;
    while s.len() - j >= 2
        invariant
            i <= j <= s@.len(),
            comment_close(s@, i as int) == comment_close(s@, j as int),
        decreases s@.len() - j,
    {
        if s[j] == 0x2a && s[j + 1] == 0x2f {
            return Some(j);
        }
        j = j + 1;
    }
    None
}

/// An executable position result agrees with a spec position result.
pub open spec fn same_pos(r: Result<usize, ParseError>, t: Result<int, ParseError>) -> bool {
    match r {
        Ok(j) => t == Ok::<int, ParseError>(j as int),
        Err(e) => t == Err::<int, ParseError>(e),
    }
}

/// A slice result agrees with a spec position result: on success the
/// remaining input is what follows that position.
pub open spec fn same_rest<T>(r: Result<(&[u8], T), ParseError>, s: Seq<u8>, t: Result<int, ParseError>) -> bool {
    match t {
        Ok(j) => r matches Ok((rest, _)) && rest@ == s.subrange(j, s.len() as int),
        Err(e) => r matches Err(f) && f == e,
    }
}

/// Where skipping spaces, tabs and `/* */` comments from `i` ends. A
/// comment ends at the first `*/` found from its opening `/`.
pub open spec fn spec_whitespace(s: Seq<u8>, i: int) -> Result<int, ParseError>
    decreases s.len() - i,
{
    let j = run_end(s, i, ByteClass::Space);
    if at_pair(s, j, 0x2f, 0x2a) {
        match comment_close(s, j) {
            Some(k) => {
                proof {
                    lemma_run_end(s, i, ByteClass::Space);
                    lemma_comment_close(s, j);
                }
                spec_whitespace(s, k + 2)
            },
            None => Err(ParseError::TakeUntil),
        }
    } else {
        Ok(j)
    }
}

pub proof fn lemma_whitespace(s: Seq<u8>, i: int)
    ensures
        spec_whitespace(s, i) matches Ok(j) ==> i <= j && (0 <= i <= s.len() ==> j <= s.len()),
    decreases s.len() - i,
{
    let j = run_end(s, i, ByteClass::Space);
    lemma_run_end(s, i, ByteClass::Space);
    lemma_comment_close(s, j);
    if at_pair(s, j, 0x2f, 0x2a) {
        if let Some(k) = comment_close(s, j) {
            lemma_whitespace(s, k + 2);
        }
    }
}

pub(crate) fn whitespace_at(s: &[u8], i: usize) -> (r: Result<usize, ParseError>)
    requires
        i <= s@.len(),
    ensures
        same_pos(r, spec_whitespace(s@, i as int)),
        r matches Ok(j) ==> i <= j <= s@.len(),
{
    proof { lemma_whitespace(s@, i as int); }
    let mut j = i;
    loop
        invariant
            i <= j <= s@.len(),
            spec_whitespace(s@, i as int) == spec_whitespace(s@, j as int),
        decreases s@.len() - j,
    {
        let a = take_while(s, j, ByteClass::Space);
        if s.len() - a >= 2 && s[a] == 0x2f && s[a + 1] == 0x2a {
            match find_comment_close(s, a) {
                Some(k) => {
                    proof { lemma_comment_close(s@, a as int); }
                    j = k + 2;
                },
                None => {
                    return Err(ParseError::TakeUntil);
                },
            }
        } else {
            return Ok(a);
        }
    }
}

/// Skips spaces, tabs and inline comments (`/* ... */`).
pub fn whitespace(s: &[u8]) -> (res: Result<(&[u8], ()), ParseError>)
    ensures
        same_rest(res, s@, spec_whitespace(s@, 0)),
{
    let j = whitespace_at(s, 0)?;
    Ok((&s[j..s.len()], ()))
}

/// Where skipping blanks (spaces, tabs, `\n`, `\r`), `//` line comments and
/// `/* */` comments from `i` ends. A line comment runs up to the next `\n`
/// or `\r`, or to the end of the input; a `/*` comment with no closing
/// `*/` runs to the end of the input. It never fails.
pub open spec fn spec_newline_maybe(s: Seq<u8>, i: int) -> int
    decreases s.len() - i,
{
    let j = run_end(s, i, ByteClass::Blank);
    if at_pair(s, j, 0x2f, 0x2f) {
        proof {
            lemma_run_end(s, i, ByteClass::Blank);
            lemma_run_end(s, j, ByteClass::NotNewline);
        }
        spec_newline_maybe(s, run_end(s, j, ByteClass::NotNewline))
    } else if at_pair(s, j, 0x2f, 0x2a) {
        match comment_close(s, j) {
            Some(k) => {
                proof {
                    lemma_run_end(s, i, ByteClass::Blank);
                    lemma_comment_close(s, j);
                }
                spec_newline_maybe(s, k + 2)
            },
            None => s.len() as int,
        }
    } else {
        j
    }
}

pub proof fn lemma_newline_maybe(s: Seq<u8>, i: int)
    ensures
        i <= spec_newline_maybe(s, i),
        0 <= i <= s.len() ==> run_end(s, i, ByteClass::Blank) <= spec_newline_maybe(s, i) <= s.len(),
    decreases s.len() - i,
{
    let j = run_end(s, i, ByteClass::Blank);
    lemma_run_end(s, i, ByteClass::Blank);
    lemma_run_end(s, j, ByteClass::NotNewline);
    lemma_comment_close(s, j);
    if at_pair(s, j, 0x2f, 0x2f) {
        lemma_newline_maybe(s, run_end(s, j, ByteClass::NotNewline));
    } else if at_pair(s, j, 0x2f, 0x2a) {
        if let Some(k) = comment_close(s, j) {
            lemma_newline_maybe(s, k + 2);
        }
    }
}

pub(crate) fn newline_maybe_at(s: &[u8], i: usize) -> (r: usize)
    requires
        i <= s@.len(),
    ensures
        r == spec_newline_maybe(s@, i as int),
        i <= r <= s@.len(),
{
    proof { lemma_newline_maybe(s@, i as int); }
    let mut j = i;
    loop
        invariant
            i <= j <= s@.len(),
            spec_newline_maybe(s@, i as int) == spec_newline_maybe(s@, j as int),
        decreases s@.len() - j,
    {
        let a = take_while(s, j, ByteClass::Blank);
        if s.len() - a >= 2 && s[a] == 0x2f && s[a + 1] == 0x2f {
            proof { lemma_run_end(s@, a as int, ByteClass::NotNewline); }
            j = take_while(s, a, ByteClass::NotNewline);
        } else if s.len() - a >= 2 && s[a] == 0x2f && s[a + 1] == 0x2a {
            match find_comment_close(s, a) {
                Some(k) => {
                    proof { lemma_comment_close(s@, a as int); }
                    j = k + 2;
                },
                None => {
                    return s.len();
                },
            }
        } else {
            return a;
        }
    }
}

/// Skips blanks and comments of both kinds; needs no newline and never
/// fails.
pub fn newline_maybe(s: &[u8]) -> (res: Result<(&[u8], ()), ParseError>)
    ensures
        res matches Ok((rest, _)) && rest@ == s@.subrange(spec_newline_maybe(s@, 0), s@.len() as int),
{
    let j = newline_maybe_at(s, 0);
    Ok((&s[j..s.len()], ()))
}

/// Where skipping from `i` ends when a line break is required: spaces, tabs
/// and inline comments, then a line break, then, like
/// [`spec_newline_maybe`], every blank and comment that follows. Fails when
/// no line break comes after the spaces, tabs and inline comments.
pub open spec fn spec_newline(s: Seq<u8>, i: int) -> Result<int, ParseError> {
    match spec_whitespace(s, i) {
        Err(e) => Err(e),
        Ok(a) => if 0 <= a < s.len() && ByteClass::Newline.contains(s[a]) {
            Ok(spec_newline_maybe(s, a))
        } else {
            Err(ParseError::TakeWhile1)
        },
    }
}

pub(crate) fn newline_at(s: &[u8], i: usize) -> (r: Result<usize, ParseError>)
    requires
        i <= s@.len(),
    ensures
        same_pos(r, spec_newline(s@, i as int)),
        r matches Ok(j) ==> i < j <= s@.len(),
{
    let a = whitespace_at(s, i)?;
    if a < s.len() && ByteClass::Newline.matches(s[a]) {
        proof {
            lemma_run_end(s@, a as int, ByteClass::Blank);
            lemma_newline_maybe(s@, a as int);
        }
        Ok(newline_maybe_at(s, a))
    } else {
        Err(ParseError::TakeWhile1)
    }
}

/// Skips blanks and comments of both kinds; fails unless a line break comes
/// after the leading spaces, tabs and inline comments.
pub fn newline(s: &[u8]) -> (res: Result<(&[u8], ()), ParseError>)
    ensures
        same_rest(res, s@, spec_newline(s@, 0)),
{
    let j = newline_at(s, 0)?;
    Ok((&s[j..s.len()], ()))
}

/// An unquoted string starting at `i`: the longest non-empty run of bytes
/// that are not a quote, a brace, a bracket or a blank.
pub open spec fn spec_unquoted(s: Seq<u8>, i: int) -> Result<int, ParseError> {
    let j = run_end(s, i, ByteClass::Unquoted);
    if j == i {
        Err(ParseError::TakeWhile1)
    } else {
        Ok(j)
    }
}

/// Parses an unquoted string.
pub fn parse_unquoted_string(s: &[u8]) -> (res: Result<(&[u8], &[u8]), ParseError>)
    ensures
        same_rest(res, s@, spec_unquoted(s@, 0)),
        res matches Ok((_, v)) ==> v@ == s@.subrange(0, run_end(s@, 0, ByteClass::Unquoted)),
{
    let j = take_while(s, 0, ByteClass::Unquoted);
    if j == 0 {
        return Err(ParseError::TakeWhile1);
    }
    Ok((&s[j..s.len()], &s[0..j]))
}

/// Parses the inside of a quoted string without escapes: the bytes up to the
/// first backslash or double quote. Never fails.
pub fn parse_string_inner_unescaped(s: &[u8]) -> (res: Result<(&[u8], &[u8]), ParseError>)
    ensures
        res matches Ok((rest, v)) && v@ == s@.subrange(0, run_end(s@, 0, ByteClass::Plain))
            && rest@ == s@.subrange(run_end(s@, 0, ByteClass::Plain), s@.len() as int),
{
    let j = take_while(s, 0, ByteClass::Plain);
    Ok((&s[j..s.len()], &s[0..j]))
}

/// The character that an escape `\c` stands for.
pub open spec fn spec_escape_map(c: u8) -> char {
    if c == 0x6e {
        '\n'
    } else if c == 0x72 {
        '\r'
    } else if c == 0x74 {
        '\t'
    } else {
        c as char
    }
}

/// Maps the byte after a backslash to the character it stands for: `n`, `r`
/// and `t` to line feed, carriage return and tab; any other byte to the
/// character of the same number.
pub fn escape_map(c: u8) -> (r: char)
    ensures
        r == spec_escape_map(c),
{
    if c == 0x6e {
        '\n'
    } else if c == 0x72 {
        '\r'
    } else if c == 0x74 {
        '\t'
    } else {
        c as char
    }
}

/// Appends the UTF-8 encoding of `c`.
fn push_utf8(v: &mut Vec<u8>, c: char)
    ensures
        final(v)@ == old(v)@ + vstd::utf8::encode_scalar(c as u32),
{
    let n = c as u32;
    proof {
        vstd::utf8::char_is_scalar(c);
    }
    if n <= 0x7f {
        v.push((n & 0x7f) as u8);
    } else if n <= 0x7ff {
        v.push(0xc0 | ((n >> 6) & 0x1f) as u8);
        v.push(0x80 | (n & 0x3f) as u8);
    } else if n <= 0xffff {
        v.push(0xe0 | ((n >> 12) & 0x0f) as u8);
        v.push(0x80 | ((n >> 6) & 0x3f) as u8);
        v.push(0x80 | (n & 0x3f) as u8);
    } else {
        v.push(0xf0 | ((n >> 18) & 0x07) as u8);
        v.push(0x80 | ((n >> 12) & 0x3f) as u8);
        v.push(0x80 | ((n >> 6) & 0x3f) as u8);
        v.push(0x80 | (n & 0x3f) as u8);
    }
    assert(v@ =~= old(v)@ + vstd::utf8::encode_scalar(c as u32));
}

/// The inside of a quoted string from `i`, with escapes: the end position
/// and the bytes it stands for. Plain bytes stand for themselves; a backslash
/// and the byte after it stand for the UTF-8 encoding of [`spec_escape_map`]
/// of that byte. It ends at a double quote, at a backslash with nothing after
/// it, or at the end of the input.
pub open spec fn spec_escaped_inner(s: Seq<u8>, i: int) -> (int, Seq<u8>)
    decreases s.len() - i,
{
    let j = run_end(s, i, ByteClass::Plain);
    if 0 <= j && j + 1 < s.len() && s[j] == 0x5c {
        proof {
            lemma_run_end(s, i, ByteClass::Plain);
        }
        let r = spec_escaped_inner(s, j + 2);
        (r.0, s.subrange(i, j) + vstd::utf8::encode_scalar(spec_escape_map(s[j + 1]) as u32) + r.1)
    } else {
        (j, s.subrange(i, j))
    }
}

pub proof fn lemma_escaped_inner(s: Seq<u8>, i: int)
    requires
        0 <= i <= s.len(),
    ensures
        i <= spec_escaped_inner(s, i).0 <= s.len(),
        spec_escaped_inner(s, i).0 < s.len() ==> s[spec_escaped_inner(s, i).0] == 0x22
            || (s[spec_escaped_inner(s, i).0] == 0x5c && spec_escaped_inner(s, i).0 + 1 == s.len()),
    decreases s.len() - i,
{
    let j = run_end(s, i, ByteClass::Plain);
    lemma_run_end(s, i, ByteClass::Plain);
    if 0 <= j && j + 1 < s.len() && s[j] == 0x5c {
        lemma_escaped_inner(s, j + 2);
    }
}

pub(crate) fn escaped_inner_at(s: &[u8], i: usize) -> (r: (usize, Vec<u8>))
    requires
        i <= s@.len(),
    ensures
        r.0 == spec_escaped_inner(s@, i as int).0,
        r.1@ == spec_escaped_inner(s@, i as int).1,
        i <= r.0 <= s@.len(),
{
    proof { lemma_escaped_inner(s@, i as int); }
    let mut out: Vec<u8> = Vec::new();
    let mut j = i;
    assert(out@ + spec_escaped_inner(s@, j as int).1 =~= spec_escaped_inner(s@, i as int).1);
    loop
        invariant
            i <= j <= s@.len(),
            spec_escaped_inner(s@, i as int).0 == spec_escaped_inner(s@, j as int).0,
            spec_escaped_inner(s@, i as int).1 == out@ + spec_escaped_inner(s@, j as int).1,
        decreases s@.len() - j,
    {
        let a = take_while(s, j, ByteClass::Plain);
        let ghost before = out@;
        out.extend_from_slice(&s[j..a]);
        assert(out@ =~= before + s@.subrange(j as int, a as int));
        if s.len() - a >= 2 && s[a] == 0x5c {
            push_utf8(&mut out, escape_map(s[a + 1]));
            assert(spec_escaped_inner(s@, i as int).1 =~= out@ + spec_escaped_inner(s@, a + 2).1);
            j = a + 2;
        } else {
            return (a, out);
        }
    }
}

/// Parses the inside of a quoted string, turning escapes into what they
/// stand for. Never fails.
pub fn parse_string_inner_escaped(s: &[u8]) -> (res: Result<(&[u8], Vec<u8>), ParseError>)
    ensures
        res matches Ok((rest, v)) && v@ == spec_escaped_inner(s@, 0).1
            && rest@ == s@.subrange(spec_escaped_inner(s@, 0).0, s@.len() as int),
{
    let (j, v) = escaped_inner_at(s, 0);
    Ok((&s[j..s.len()], v))
}

/// An executable text result agrees with a spec text result.
pub open spec fn same_text(r: Result<(usize, Vec<u8>), ParseError>, t: Result<(int, Seq<u8>), ParseError>) -> bool {
    match r {
        Ok((j, v)) => t == Ok::<(int, Seq<u8>), ParseError>((j as int, v@)),
        Err(e) => t == Err::<(int, Seq<u8>), ParseError>(e),
    }
}

/// A slice-and-text result agrees with a spec text result.
pub open spec fn same_rest_text(r: Result<(&[u8], Vec<u8>), ParseError>, s: Seq<u8>, t: Result<(int, Seq<u8>), ParseError>) -> bool {
    match t {
        Ok((j, v)) => r matches Ok((rest, w)) && rest@ == s.subrange(j, s.len() as int) && w@ == v,
        Err(e) => r matches Err(f) && f == e,
    }
}

/// A quoted string at `i`: a double quote, the inside with escapes, and a
/// closing double quote.
pub open spec fn spec_string(s: Seq<u8>, i: int) -> Result<(int, Seq<u8>), ParseError> {
    if 0 <= i < s.len() && s[i] == 0x22 {
        let r = spec_escaped_inner(s, i + 1);
        if 0 <= r.0 < s.len() && s[r.0] == 0x22 {
            Ok((r.0 + 1, r.1))
        } else {
            Err(ParseError::Tag)
        }
    } else {
        Err(ParseError::Tag)
    }
}

pub(crate) fn string_at(s: &[u8], i: usize) -> (r: Result<(usize, Vec<u8>), ParseError>)
    requires
        i <= s@.len(),
    ensures
        same_text(r, spec_string(s@, i as int)),
        r matches Ok((j, _)) ==> i < j <= s@.len(),
{
    if i < s.len() && s[i] == 0x22 {
        let (j, v) = escaped_inner_at(s, i + 1);
        if j < s.len() && s[j] == 0x22 {
            Ok((j + 1, v))
        } else {
            Err(ParseError::Tag)
        }
    } else {
        Err(ParseError::Tag)
    }
}

/// Parses a quoted string.
pub fn parse_string(s: &[u8]) -> (res: Result<(&[u8], Vec<u8>), ParseError>)
    ensures
        same_rest_text(res, s@, spec_string(s@, 0)),
{
    let (j, v) = string_at(s, 0)?;
    Ok((&s[j..s.len()], v))
}

/// A quoted string at `i` if there is one, else an unquoted string.
pub open spec fn spec_auto_string(s: Seq<u8>, i: int) -> Result<(int, Seq<u8>), ParseError> {
    match spec_string(s, i) {
        Ok(r) => Ok(r),
        Err(_) => match spec_unquoted(s, i) {
            Ok(j) => Ok((j, s.subrange(i, j))),
            Err(e) => Err(e),
        },
    }
}

pub proof fn lemma_auto_string(s: Seq<u8>, i: int)
    ensures
        spec_auto_string(s, i) matches Ok((j, _)) ==> 0 <= i < j <= s.len(),
{
    lemma_run_end(s, i, ByteClass::Unquoted);
    if 0 <= i < s.len() {
        lemma_escaped_inner(s, i + 1);
    }
}

pub(crate) fn auto_string_at(s: &[u8], i: usize) -> (r: Result<(usize, Vec<u8>), ParseError>)
    requires
        i <= s@.len(),
    ensures
        same_text(r, spec_auto_string(s@, i as int)),
        r matches Ok((j, _)) ==> i < j <= s@.len(),
{
    match string_at(s, i) {
        Ok(r) => Ok(r),
        Err(_) => {
            let j = take_while(s, i, ByteClass::Unquoted);
            if j == i {
                return Err(ParseError::TakeWhile1);
            }
            let v = vstd::slice::slice_to_vec(&s[i..j]);
            Ok((j, v))
        },
    }
}

/// Parses a quoted string if there is one, else an unquoted string.
pub fn parse_auto_string(s: &[u8]) -> (res: Result<(&[u8], Vec<u8>), ParseError>)
    ensures
        same_rest_text(res, s@, spec_auto_string(s@, 0)),
{
    let (j, v) = auto_string_at(s, 0)?;
    Ok((&s[j..s.len()], v))
}

/// A conditional at `i`: `[`, any bytes but `]`, and `]`.
pub open spec fn spec_conditional(s: Seq<u8>, i: int) -> Result<int, ParseError> {
    if 0 <= i < s.len() && s[i] == 0x5b {
        let j = run_end(s, i + 1, ByteClass::NotCloseBracket);
        if j < s.len() {
            Ok(j + 1)
        } else {
            Err(ParseError::Tag)
        }
    } else {
        Err(ParseError::Tag)
    }
}

pub proof fn lemma_conditional(s: Seq<u8>, i: int)
    ensures
        spec_conditional(s, i) matches Ok(j) ==> 0 <= i < j <= s.len() && s[j - 1] == 0x5d,
{
    lemma_run_end(s, i + 1, ByteClass::NotCloseBracket);
}

pub(crate) fn conditional_at(s: &[u8], i: usize) -> (r: Result<(usize, bool), ParseError>)
    requires
        i <= s@.len(),
    ensures
        match r {
            Ok((j, b)) => spec_conditional(s@, i as int) == Ok::<int, ParseError>(j as int) && b,
            Err(e) => spec_conditional(s@, i as int) == Err::<int, ParseError>(e),
        },
        r matches Ok((j, _)) ==> i < j <= s@.len(),
{
    proof { lemma_conditional(s@, i as int); }
    if i < s.len() && s[i] == 0x5b {
        let j = take_while(s, i + 1, ByteClass::NotCloseBracket);
        if j < s.len() {
            Ok((j + 1, true))
        } else {
            Err(ParseError::Tag)
        }
    } else {
        Err(ParseError::Tag)
    }
}

/// Parses a conditional such as `[$WIN32]`. Conditionals are not evaluated:
/// every one counts as true.
pub fn parse_conditional(s: &[u8]) -> (res: Result<(&[u8], bool), ParseError>)
    ensures
        same_rest(res, s@, spec_conditional(s@, 0)),
        res matches Ok((_, b)) ==> b,
{
    let (j, b) = conditional_at(s, 0)?;
    Ok((&s[j..s.len()], b))
}

/// Brace skipping from `i` with `depth` braces open, reading the input the
/// way the parser cuts it into tokens. At a key position (`after_key`
/// false), blanks and comments of both kinds are passed over first; after
/// a key, only spaces, tabs, inline comments and an optional `=` are, as
/// before a value. Quoted strings (with escapes), unquoted strings and
/// conditionals are passed over whole, so braces, quotes and comment marks
/// inside them do not count. It ends at the `}` that closes no brace opened
/// after the start, or at the end of the input; a string, comment or
/// conditional that is not closed runs to the end of the input.
pub open spec fn spec_skip_tokens(s: Seq<u8>, i: int, depth: nat, after_key: bool) -> int
    decreases s.len() - i, if after_key { 1nat } else { 0nat },
{
    if !(0 <= i <= s.len()) {
        s.len() as int
    } else if after_key {
        match spec_value_prefix(s, i) {
            Err(_) => s.len() as int,
            Ok(a) => {
                proof {
                    lemma_value_prefix(s, i);
                    lemma_conditional(s, a);
                    lemma_run_end(s, a, ByteClass::Unquoted);
                    if a < s.len() {
                        lemma_escaped_inner(s, a + 1);
                    }
                }
                if a >= s.len() {
                    s.len() as int
                } else if s[a] == 0x5b {
                    match spec_conditional(s, a) {
                        Ok(b) => spec_skip_tokens(s, b, depth, false),
                        Err(_) => s.len() as int,
                    }
                } else if s[a] == 0x7b || s[a] == 0x7d || s[a] == 0x0a || s[a] == 0x0d {
                    spec_skip_tokens(s, a, depth, false)
                } else if s[a] == 0x22 {
                    let e = spec_escaped_inner(s, a + 1).0;
                    if e < s.len() {
                        spec_skip_tokens(s, e + 1, depth, false)
                    } else {
                        s.len() as int
                    }
                } else {
                    let j = run_end(s, a, ByteClass::Unquoted);
                    if j > a {
                        spec_skip_tokens(s, j, depth, false)
                    } else {
                        spec_skip_tokens(s, a + 1, depth, false)
                    }
                }
            },
        }
    } else {
        let a = spec_newline_maybe(s, i);
        proof {
            lemma_newline_maybe(s, i);
            lemma_conditional(s, a);
            lemma_run_end(s, a, ByteClass::Unquoted);
            if a < s.len() {
                lemma_escaped_inner(s, a + 1);
            }
        }
        if a >= s.len() {
            s.len() as int
        } else if s[a] == 0x7b {
            spec_skip_tokens(s, a + 1, depth + 1, false)
        } else if s[a] == 0x7d {
            if depth == 0 {
                a
            } else {
                spec_skip_tokens(s, a + 1, (depth - 1) as nat, false)
            }
        } else if s[a] == 0x22 {
            let e = spec_escaped_inner(s, a + 1).0;
            if e < s.len() {
                spec_skip_tokens(s, e + 1, depth, true)
            } else {
                s.len() as int
            }
        } else if s[a] == 0x5b {
            match spec_conditional(s, a) {
                Ok(b) => spec_skip_tokens(s, b, depth, false),
                Err(_) => s.len() as int,
            }
        } else {
            let j = run_end(s, a, ByteClass::Unquoted);
            if j > a {
                spec_skip_tokens(s, j, depth, true)
            } else {
                spec_skip_tokens(s, a + 1, depth, false)
            }
        }
    }
}

/// Where skipping from a key position `i`, with `depth` braces open, ends;
/// see [`spec_skip_tokens`].
pub open spec fn spec_skip_braces_inner(s: Seq<u8>, i: int, depth: nat) -> int {
    spec_skip_tokens(s, i, depth, false)
}

pub proof fn lemma_skip_tokens(s: Seq<u8>, i: int, depth: nat, after_key: bool)
    requires
        0 <= i <= s.len(),
    ensures
        i <= spec_skip_tokens(s, i, depth, after_key) <= s.len(),
        spec_skip_tokens(s, i, depth, after_key) < s.len() ==> s[spec_skip_tokens(s, i, depth, after_key)] == 0x7d,
    decreases s.len() - i, if after_key { 1nat } else { 0nat },
{
    if after_key {
        lemma_value_prefix(s, i);
        if let Ok(a) = spec_value_prefix(s, i) {
            lemma_conditional(s, a);
            lemma_run_end(s, a, ByteClass::Unquoted);
            if a < s.len() {
                lemma_escaped_inner(s, a + 1);
                if s[a] == 0x5b {
                    if let Ok(b) = spec_conditional(s, a) {
                        lemma_skip_tokens(s, b, depth, false);
                    }
                } else if s[a] == 0x7b || s[a] == 0x7d || s[a] == 0x0a || s[a] == 0x0d {
                    lemma_skip_tokens(s, a, depth, false);
                } else if s[a] == 0x22 {
                    let e = spec_escaped_inner(s, a + 1).0;
                    if e < s.len() {
                        lemma_skip_tokens(s, e + 1, depth, false);
                    }
                } else {
                    let j = run_end(s, a, ByteClass::Unquoted);
                    if j > a {
                        lemma_skip_tokens(s, j, depth, false);
                    } else {
                        lemma_skip_tokens(s, a + 1, depth, false);
                    }
                }
            }
        }
    } else {
        lemma_newline_maybe(s, i);
        let a = spec_newline_maybe(s, i);
        lemma_conditional(s, a);
        lemma_run_end(s, a, ByteClass::Unquoted);
        if a < s.len() {
            lemma_escaped_inner(s, a + 1);
            if s[a] == 0x7b {
                lemma_skip_tokens(s, a + 1, depth + 1, false);
            } else if s[a] == 0x7d {
                if depth != 0 {
                    lemma_skip_tokens(s, a + 1, (depth - 1) as nat, false);
                }
            } else if s[a] == 0x22 {
                let e = spec_escaped_inner(s, a + 1).0;
                if e < s.len() {
                    lemma_skip_tokens(s, e + 1, depth, true);
                }
            } else if s[a] == 0x5b {
                if let Ok(b) = spec_conditional(s, a) {
                    lemma_skip_tokens(s, b, depth, false);
                }
            } else {
                let j = run_end(s, a, ByteClass::Unquoted);
                if j > a {
                    lemma_skip_tokens(s, j, depth, true);
                } else {
                    lemma_skip_tokens(s, a + 1, depth, false);
                }
            }
        }
    }
}

pub proof fn lemma_skip_braces_inner(s: Seq<u8>, i: int, depth: nat)
    requires
        0 <= i <= s.len(),
    ensures
        i <= spec_skip_braces_inner(s, i, depth) <= s.len(),
        spec_skip_braces_inner(s, i, depth) < s.len() ==> s[spec_skip_braces_inner(s, i, depth)] == 0x7d,
{
    lemma_skip_tokens(s, i, depth, false);
}

/// Where the inside of a quoted string from `i` ends, without building the
/// bytes it stands for.
fn escaped_end_at(s: &[u8], i: usize) -> (r: usize)
    requires
        i <= s@.len(),
    ensures
        r == spec_escaped_inner(s@, i as int).0,
        i <= r <= s@.len(),
{
    proof { lemma_escaped_inner(s@, i as int); }
    let mut j = i;
    loop
        invariant
            i <= j <= s@.len(),
            spec_escaped_inner(s@, i as int).0 == spec_escaped_inner(s@, j as int).0,
        decreases s@.len() - j,
    {
        let a = take_while(s, j, ByteClass::Plain);
        if s.len() - a >= 2 && s[a] == 0x5c {
            j = a + 2;
        } else {
            return a;
        }
    }
}

/// Where the blanks before a value end: spaces, tabs and inline comments,
/// then, if there is one, `=` followed by spaces, tabs and inline comments.
/// The `=` stays unread when the comments after it are not closed.
pub open spec fn spec_value_prefix(s: Seq<u8>, i: int) -> Result<int, ParseError> {
    match spec_whitespace(s, i) {
        Err(e) => Err(e),
        Ok(a) => if 0 <= a < s.len() && s[a] == 0x3d {
            match spec_whitespace(s, a + 1) {
                Ok(b) => Ok(b),
                Err(_) => Ok(a),
            }
        } else {
            Ok(a)
        },
    }
}

pub proof fn lemma_value_prefix(s: Seq<u8>, i: int)
    ensures
        spec_value_prefix(s, i) matches Ok(j) ==> i <= j && (0 <= i <= s.len() ==> j <= s.len()),
{
    lemma_whitespace(s, i);
    if let Ok(a) = spec_whitespace(s, i) {
        lemma_whitespace(s, a + 1);
    }
}

pub(crate) fn value_prefix_at(s: &[u8], i: usize) -> (r: Result<usize, ParseError>)
    requires
        i <= s@.len(),
    ensures
        same_pos(r, spec_value_prefix(s@, i as int)),
        r matches Ok(j) ==> i <= j <= s@.len(),
{
    proof { lemma_value_prefix(s@, i as int); }
    let a = whitespace_at(s, i)?;
    if a < s.len() && s[a] == 0x3d {
        match whitespace_at(s, a + 1) {
            Ok(b) => Ok(b),
            Err(_) => Ok(a),
        }
    } else {
        Ok(a)
    }
}

pub(crate) fn skip_braces_inner_at(s: &[u8], i: usize) -> (r: usize)
    requires
        i <= s@.len(),
    ensures
        r == spec_skip_braces_inner(s@, i as int, 0),
        i <= r <= s@.len(),
{
    proof { lemma_skip_braces_inner(s@, i as int, 0); }
    let mut depth: usize = 0;
    let mut j = i;
    let mut after_key = false;
    loop
        invariant
            i <= j <= s@.len(),
            depth <= j - i,
            spec_skip_braces_inner(s@, i as int, 0) == spec_skip_tokens(s@, j as int, depth as nat, after_key),
        decreases s@.len() - j, if after_key { 1nat } else { 0nat },
    {
        if after_key {
            let a = match value_prefix_at(s, j) {
                Ok(a) => a,
                Err(_) => {
                    return s.len();
                },
            };
            if a >= s.len() {
                return s.len();
            }
            let c = s[a];
            if c == 0x5b {
                match conditional_at(s, a) {
                    Ok((b, _)) => {
                        j = b;
                    },
                    Err(_) => {
                        return s.len();
                    },
                }
            } else if c == 0x7b || c == 0x7d || c == 0x0a || c == 0x0d {
                j = a;
            } else if c == 0x22 {
                let e = escaped_end_at(s, a + 1);
                if e < s.len() {
                    j = e + 1;
                } else {
                    return s.len();
                }
            } else {
                let k = take_while(s, a, ByteClass::Unquoted);
                if k > a {
                    j = k;
                } else {
                    j = a + 1;
                }
            }
            after_key = false;
        } else {
            let a = newline_maybe_at(s, j);
            if a >= s.len() {
                return s.len();
            }
            let c = s[a];
            if c == 0x7b {
                depth = depth + 1;
                j = a + 1;
            } else if c == 0x7d {
                if depth == 0 {
                    return a;
                }
                depth = depth - 1;
                j = a + 1;
            } else if c == 0x22 {
                let e = escaped_end_at(s, a + 1);
                if e < s.len() {
                    j = e + 1;
                    after_key = true;
                } else {
                    return s.len();
                }
            } else if c == 0x5b {
                match conditional_at(s, a) {
                    Ok((b, _)) => {
                        j = b;
                    },
                    Err(_) => {
                        return s.len();
                    },
                }
            } else {
                let k = take_while(s, a, ByteClass::Unquoted);
                if k > a {
                    j = k;
                    after_key = true;
                } else {
                    j = a + 1;
                }
            }
        }
    }
}

/// Skips up to the `}` that closes no brace opened in the input, or to the
/// end of the input; the `}` stays in the rest. Strings, comments and
/// conditionals are passed over as the parser reads them (see
/// [`spec_skip_tokens`]). Never fails.
pub fn skip_braces_inner(s: &[u8]) -> (res: Result<(&[u8], ()), ParseError>)
    ensures
        res matches Ok((rest, _)) && rest@ == s@.subrange(spec_skip_braces_inner(s@, 0, 0), s@.len() as int),
{
    let j = skip_braces_inner_at(s, 0);
    Ok((&s[j..s.len()], ()))
}

/// The opening of a block at `i`: blanks and comments, `{`, blanks and
/// comments.
pub open spec fn spec_open_brace(s: Seq<u8>, i: int) -> Result<int, ParseError> {
    let a = spec_newline_maybe(s, i);
    if 0 <= a < s.len() && s[a] == 0x7b {
        Ok(spec_newline_maybe(s, a + 1))
    } else {
        Err(ParseError::Tag)
    }
}

pub proof fn lemma_open_brace(s: Seq<u8>, i: int)
    ensures
        spec_open_brace(s, i) matches Ok(j) ==> i < j <= s.len(),
{
    lemma_newline_maybe(s, i);
    let a = spec_newline_maybe(s, i);
    if 0 <= a < s.len() {
        lemma_newline_maybe(s, a + 1);
    }
}

pub(crate) fn open_brace_at(s: &[u8], i: usize) -> (r: Result<usize, ParseError>)
    requires
        i <= s@.len(),
    ensures
        same_pos(r, spec_open_brace(s@, i as int)),
        r matches Ok(j) ==> i < j <= s@.len(),
{
    let a = newline_maybe_at(s, i);
    if a < s.len() && s[a] == 0x7b {
        proof { lemma_newline_maybe(s@, a + 1); }
        Ok(newline_maybe_at(s, a + 1))
    } else {
        Err(ParseError::Tag)
    }
}

/// The end of a block whose inside ends at `c`: after the `}` there, or, if
/// there is none, the end of the input.
pub open spec fn spec_close_brace(s: Seq<u8>, c: int) -> int {
    if 0 <= c < s.len() && s[c] == 0x7d {
        c + 1
    } else {
        s.len() as int
    }
}

pub(crate) fn close_brace_at(s: &[u8], c: usize) -> (r: usize)
    requires
        c <= s@.len(),
    ensures
        r == spec_close_brace(s@, c as int),
        c <= r <= s@.len(),
{
    if c < s.len() && s[c] == 0x7d {
        c + 1
    } else {
        s.len()
    }
}

/// Where skipping a whole block from `i` ends, without parsing its pairs.
pub open spec fn spec_skip_braces(s: Seq<u8>, i: int) -> Result<int, ParseError> {
    match spec_open_brace(s, i) {
        Err(e) => Err(e),
        Ok(b) => Ok(spec_close_brace(s, spec_skip_braces_inner(s, b, 0))),
    }
}

pub(crate) fn skip_braces_at(s: &[u8], i: usize) -> (r: Result<usize, ParseError>)
    requires
        i <= s@.len(),
    ensures
        same_pos(r, spec_skip_braces(s@, i as int)),
        r matches Ok(j) ==> i < j <= s@.len(),
{
    let b = open_brace_at(s, i)?;
    let c = skip_braces_inner_at(s, b);
    Ok(close_brace_at(s, c))
}

/// Skips a block from its opening `{` to its closing `}` without parsing
/// the pairs in it; the value is the bytes skipped. Braces inside quoted
/// strings and comments do not count.
pub fn skip_braces(s: &[u8]) -> (res: Result<(&[u8], &[u8]), ParseError>)
    ensures
        same_rest(res, s@, spec_skip_braces(s@, 0)),
        res matches Ok((_, v)) ==> v@ == s@.subrange(0, spec_skip_braces(s@, 0)->Ok_0),
{
    let j = skip_braces_at(s, 0)?;
    Ok((&s[j..s.len()], &s[0..j]))
}

/// Skipping spaces and inline comments again where it stopped skips
/// nothing.
pub proof fn lemma_whitespace_idempotent(s: Seq<u8>, i: int)
    requires
        0 <= i <= s.len(),
    ensures
        spec_whitespace(s, i) matches Ok(j) ==> spec_whitespace(s, j) == Ok::<int, ParseError>(j),
    decreases s.len() - i,
{
    let j = run_end(s, i, ByteClass::Space);
    lemma_run_end(s, i, ByteClass::Space);
    if at_pair(s, j, 0x2f, 0x2a) {
        lemma_comment_close(s, j);
        if let Some(k) = comment_close(s, j) {
            lemma_whitespace_idempotent(s, k + 2);
        }
    } else {
        assert(run_end(s, j, ByteClass::Space) == j);
    }
}

/// Skipping blanks and comments again where it stopped skips nothing.
pub proof fn lemma_newline_maybe_idempotent(s: Seq<u8>, i: int)
    requires
        0 <= i <= s.len(),
    ensures
        spec_newline_maybe(s, spec_newline_maybe(s, i)) == spec_newline_maybe(s, i),
    decreases s.len() - i,
{
    let j = run_end(s, i, ByteClass::Blank);
    lemma_run_end(s, i, ByteClass::Blank);
    lemma_run_end(s, j, ByteClass::NotNewline);
    assert(run_end(s, s.len() as int, ByteClass::Blank) == s.len());
    if at_pair(s, j, 0x2f, 0x2f) {
        lemma_newline_maybe_idempotent(s, run_end(s, j, ByteClass::NotNewline));
    } else if at_pair(s, j, 0x2f, 0x2a) {
        lemma_comment_close(s, j);
        if let Some(k) = comment_close(s, j) {
            lemma_newline_maybe_idempotent(s, k + 2);
        }
    } else {
        assert(run_end(s, j, ByteClass::Blank) == j);
    }
}

/// The end of a run of bytes of one class, given that the run is there.
pub proof fn lemma_run_end_exact(s: Seq<u8>, i: int, m: int, k: ByteClass)
    requires
        0 <= i <= m <= s.len(),
        forall|j: int| i <= j < m ==> k.contains(#[trigger] s[j]),
        m == s.len() || !k.contains(s[m]),
    ensures
        run_end(s, i, k) == m,
    decreases m - i,
{
    if i < m {
        lemma_run_end_exact(s, i + 1, m, k);
    }
}

/// A quoted string with no backslash and no double quote inside stands for
/// exactly the bytes between its quotes.
pub proof fn lemma_plain_quoted(c: Seq<u8>, rest: Seq<u8>)
    requires
        forall|j: int| 0 <= j < c.len() ==> ByteClass::Plain.contains(#[trigger] c[j]),
    ensures
        spec_string(seq![0x22u8] + c + seq![0x22u8] + rest, 0) == Ok::<(int, Seq<u8>), ParseError>(
            (c.len() + 2 as int, c),
        ),
{
    let s = seq![0x22u8] + c + seq![0x22u8] + rest;
    assert forall|j: int| 1 <= j < c.len() + 1 implies ByteClass::Plain.contains(#[trigger] s[j]) by {
        assert(s[j] == c[j - 1]);
    }
    assert(s[c.len() + 1 as int] == 0x22u8);
    lemma_run_end_exact(s, 1, c.len() + 1 as int, ByteClass::Plain);
    assert(s.subrange(1, c.len() + 1 as int) =~= c);
}

/// An unquoted string holds no quote, brace, bracket or blank.
pub proof fn lemma_unquoted_clean(s: Seq<u8>, i: int)
    requires
        0 <= i <= s.len(),
    ensures
        spec_unquoted(s, i) matches Ok(j) ==> i < j <= s.len() && forall|k: int|
            i <= k < j ==> ByteClass::Unquoted.contains(#[trigger] s[k]),
{
    lemma_run_end(s, i, ByteClass::Unquoted);
}

/// At a key position, blanks and comments are passed over: skipping from
/// `i` is skipping from where [`spec_newline_maybe`] stops.
pub proof fn lemma_skip_after_newline_maybe(s: Seq<u8>, i: int, depth: nat)
    requires
        0 <= i <= s.len(),
    ensures
        spec_skip_tokens(s, i, depth, false) == spec_skip_tokens(s, spec_newline_maybe(s, i), depth, false),
{
    lemma_newline_maybe(s, i);
    lemma_newline_maybe_idempotent(s, i);
}

/// A `/*` comment ends at the first `*/`: `comment_close` finds a `*/` at
/// or after `i` exactly when there is one, and then the first.
pub proof fn lemma_comment_close_is_first(s: Seq<u8>, i: int)
    requires
        0 <= i,
    ensures
        comment_close(s, i) matches Some(k) ==> i <= k && at_pair(s, k, 0x2a, 0x2f) && forall|j: int|
            i <= j < k ==> !#[trigger] at_pair(s, j, 0x2a, 0x2f),
        comment_close(s, i) is None ==> forall|j: int| i <= j ==> !#[trigger] at_pair(s, j, 0x2a, 0x2f),
    decreases s.len() - i,
{
    if i + 1 < s.len() && !(s[i] == 0x2a && s[i + 1] == 0x2f) {
        lemma_comment_close_is_first(s, i + 1);
        assert forall|j: int| i <= j < i + 1 implies !#[trigger] at_pair(s, j, 0x2a, 0x2f) by {}
    }
}

/// The converse: where the first `*/` at or after `i` starts at `k`,
/// `comment_close` finds `k`.
pub proof fn lemma_comment_close_at_first(s: Seq<u8>, i: int, k: int)
    requires
        0 <= i <= k,
        at_pair(s, k, 0x2a, 0x2f),
        forall|j: int| i <= j < k ==> !#[trigger] at_pair(s, j, 0x2a, 0x2f),
    ensures
        comment_close(s, i) == Some(k),
    decreases k - i,
{
    if i < k {
        assert(!at_pair(s, i, 0x2a, 0x2f));
        lemma_comment_close_at_first(s, i + 1, k);
    }
}

/// Skipping spaces and inline comments over ` /* c */ ` leaves what follows,
/// when `c` holds no `*/` and what follows starts with neither a space, a
/// tab nor `/*`: the comment ends at its first `*/`, not at a later one.
pub proof fn lemma_whitespace_over_comment(c: Seq<u8>, r: Seq<u8>)
    requires
        forall|j: int| 0 <= j < c.len() - 1 ==> !(c[j] == 0x2au8 && #[trigger] c[j + 1] == 0x2fu8),
        !(r.len() > 0 && (r[0] == 0x20u8 || r[0] == 0x09u8)),
        !(r.len() > 1 && r[0] == 0x2fu8 && r[1] == 0x2au8),
    ensures
        spec_whitespace(seq![0x20u8, 0x2fu8, 0x2au8, 0x20u8] + c + seq![0x20u8, 0x2au8, 0x2fu8, 0x20u8] + r, 0)
            == Ok::<int, ParseError>(c.len() + 8 as int),
{
    let p = seq![0x20u8, 0x2fu8, 0x2au8, 0x20u8] + c + seq![0x20u8, 0x2au8, 0x2fu8, 0x20u8];
    let s = p + r;
    let n: int = c.len() as int;
    assert(s.len() == n + 8 + r.len());
    assert(s[0] == 0x20u8 && s[1] == 0x2fu8 && s[2] == 0x2au8 && s[3] == 0x20u8);
    assert(s[n + 4] == 0x20u8 && s[n + 5] == 0x2au8 && s[n + 6] == 0x2fu8 && s[n + 7] == 0x20u8);
    lemma_run_end_exact(s, 0, 1, ByteClass::Space);
    assert forall|j: int| 4 <= j < n + 4 implies #[trigger] s[j] == c[j - 4] by {}
    assert forall|j: int| 1 <= j < n + 5 implies !#[trigger] at_pair(s, j, 0x2a, 0x2f) by {
        if 4 <= j && j + 1 < n + 4 {
            assert(s[j] == c[j - 4] && s[j + 1] == c[j - 3]);
            assert(!(c[j - 4] == 0x2au8 && c[(j - 4) + 1] == 0x2fu8));
        } else if j == n + 3 && n > 0 {
            assert(s[j + 1] == 0x20u8);
        } else if j == n + 4 {
            assert(s[j] == 0x20u8);
        } else if j == 3 {
            if n > 0 {
                assert(s[j] == 0x20u8);
            } else {
                assert(s[j] == 0x20u8);
            }
        }
    }
    lemma_comment_close_at_first(s, 1, n + 5);
    if r.len() > 0 {
        assert(s[n + 8] == r[0]);
    }
    if r.len() > 1 {
        assert(s[n + 9] == r[1]);
    }
    lemma_run_end_exact(s, n + 7, n + 8, ByteClass::Space);
    assert(spec_whitespace(s, n + 7) == Ok::<int, ParseError>(n + 8));
}

/// A `//` comment runs to the end of its line and no further: skipping
/// blanks and comments over `// c` and a line break leaves what follows,
/// when `c` holds no line break and what follows starts with neither a
/// blank nor `/`.
pub proof fn lemma_newline_maybe_over_line_comment(c: Seq<u8>, r: Seq<u8>)
    requires
        forall|j: int| 0 <= j < c.len() ==> !(#[trigger] c[j] == 0x0au8 || c[j] == 0x0du8),
        !(r.len() > 0 && (ByteClass::Blank.contains(r[0]) || r[0] == 0x2fu8)),
    ensures
        spec_newline_maybe(seq![0x2fu8, 0x2fu8] + c + seq![0x0au8] + r, 0) == c.len() + 3,
{
    let s = seq![0x2fu8, 0x2fu8] + c + seq![0x0au8] + r;
    let n: int = c.len() as int;
    assert(s[0] == 0x2fu8 && s[1] == 0x2fu8 && s[n + 2] == 0x0au8);
    lemma_run_end_exact(s, 0, 0, ByteClass::Blank);
    assert forall|j: int| 0 <= j < n + 2 implies ByteClass::NotNewline.contains(#[trigger] s[j]) by {
        if j >= 2 {
            assert(s[j] == c[j - 2]);
        }
    }
    lemma_run_end_exact(s, 0, n + 2, ByteClass::NotNewline);
    if r.len() > 0 {
        assert(s[n + 3] == r[0]);
    }
    lemma_run_end_exact(s, n + 2, n + 3, ByteClass::Blank);
    assert(spec_newline_maybe(s, n + 2) == n + 3);
}

} // verus!
