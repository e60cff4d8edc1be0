//! Pairs, values and blocks of a keyvalues file.
use vstd::prelude::*;
use crate::{Item, ItemModel, Many, Pair, ParseError, item_model, pairs_model};
use crate::scan::{
    lemma_escaped_inner, lemma_newline_maybe_idempotent, lemma_run_end,
    lemma_skip_after_newline_maybe, run_end, spec_escaped_inner, spec_skip_tokens, ByteClass,
    lemma_value_prefix, spec_value_prefix, value_prefix_at, auto_string_at, close_brace_at, conditional_at, lemma_auto_string, lemma_conditional,
    lemma_newline_maybe, lemma_open_brace, lemma_whitespace, newline_maybe_at, open_brace_at,
    same_pos, skip_braces_at, spec_auto_string, spec_close_brace, spec_conditional,
    spec_newline_maybe, spec_open_brace, spec_skip_braces, spec_whitespace, whitespace_at,
};
pub use crate::scan::{
    escape_map, newline, newline_maybe, parse_auto_string, parse_conditional, parse_string,
    parse_string_inner_escaped, parse_string_inner_unescaped, parse_unquoted_string, skip_braces,
    skip_braces_inner, whitespace,
};

verus! {

/// The value of a pair.
pub type PairModel = (Seq<u8>, ItemModel);

/// `ps` with `p` in front of it, if there is a `p`.
pub open spec fn prepend(p: Option<PairModel>, ps: Seq<PairModel>) -> Seq<PairModel> {
    match p {
        Some(p) => seq![p] + ps,
        None => ps,
    }
}

/// A value at `i`: after the blanks and the optional `=`, a conditional
/// followed by a block, a block (opened by `{` or by a line break), or a
/// string.
pub open spec fn spec_parse_value(s: Seq<u8>, i: int) -> Result<(int, ItemModel), ParseError>
    decreases s.len() - i, 1nat,
{
    match spec_value_prefix(s, i) {
        Err(e) => Err(e),
        Ok(a) => if 0 <= a < s.len() && s[a] == 0x5b {
            match spec_conditional(s, a) {
                Err(e) => Err(e),
                Ok(b) => {
                    proof {
                        lemma_value_prefix(s, i);
                        lemma_conditional(s, a);
                    }
                    match spec_many_with_braces(s, b) {
                        Err(e) => Err(e),
                        Ok((c, ps)) => Ok((c, ItemModel::Block(ps))),
                    }
                },
            }
        } else if 0 <= a < s.len() && (s[a] == 0x7b || s[a] == 0x0a || s[a] == 0x0d) {
            let b = spec_newline_maybe(s, a);
            proof {
                lemma_value_prefix(s, i);
                lemma_newline_maybe(s, a);
            }
            match spec_many_with_braces(s, b) {
                Err(e) => Err(e),
                Ok((c, ps)) => Ok((c, ItemModel::Block(ps))),
            }
        } else {
            match spec_auto_string(s, a) {
                Err(e) => Err(e),
                Ok((b, v)) => Ok((b, ItemModel::Text(v))),
            }
        },
    }
}

/// A block at `i`: the opening `{` with the blanks around it, the pairs, and
/// the closing `}` (or the end of the input).
pub open spec fn spec_many_with_braces(s: Seq<u8>, i: int) -> Result<(int, Seq<PairModel>), ParseError>
    decreases s.len() - i, 0nat,
{
    match spec_open_brace(s, i) {
        Err(e) => Err(e),
        Ok(b) => {
            proof {
                lemma_open_brace(s, i);
            }
            match spec_parse_many(s, b) {
                Err(e) => Err(e),
                Ok((c, ps)) => Ok((spec_close_brace(s, c), ps)),
            }
        },
    }
}

/// The pairs from `i` up to a `}` or the end of the input, each after blanks
/// and comments. A pair that ends outside `(start, len]` stops the sequence;
/// no pair does (see `lemma_parse_advances`).
pub open spec fn spec_parse_many(s: Seq<u8>, i: int) -> Result<(int, Seq<PairModel>), ParseError>
    decreases s.len() - i, 1nat,
{
    let a = spec_newline_maybe(s, i);
    if !(0 <= a < s.len()) || s[a] == 0x7d {
        Ok((a, Seq::empty()))
    } else {
        proof {
            lemma_newline_maybe(s, i);
        }
        match spec_parse_pair(s, a) {
            Err(e) => Err(e),
            Ok((b, p)) => if a < b <= s.len() {
                match spec_parse_many(s, b) {
                    Err(e) => Err(e),
                    Ok((c, ps)) => Ok((c, prepend(p, ps))),
                }
            } else {
                Err(ParseError::Tag)
            },
        }
    }
}

/// A pair at `i`: a key string and its value.
pub open spec fn spec_parse_pair(s: Seq<u8>, i: int) -> Result<(int, Option<PairModel>), ParseError>
    decreases s.len() - i, 0nat,
{
    match spec_auto_string(s, i) {
        Err(e) => Err(e),
        Ok((a, key)) => {
            proof {
                lemma_auto_string(s, i);
            }
            match spec_parse_value(s, a) {
                Err(e) => Err(e),
                Ok((b, v)) => Ok((b, Some((key, v)))),
            }
        },
    }
}

pub proof fn lemma_pairs_model_push(ps: Seq<Pair>, p: Pair)
    ensures
        pairs_model(ps.push(p)) == pairs_model(ps) + seq![(p.0@, item_model(p.1))],
    decreases ps.len(),
{
    let qs = ps.push(p);
    if ps.len() == 0 {
        assert(qs.subrange(1, qs.len() as int) =~= Seq::<Pair>::empty());
        assert(pairs_model(Seq::<Pair>::empty()) =~= Seq::empty());
        assert(pairs_model(qs) =~= pairs_model(ps) + seq![(p.0@, item_model(p.1))]);
    } else {
        let tail = ps.subrange(1, ps.len() as int);
        assert(qs.subrange(1, qs.len() as int) =~= tail.push(p));
        lemma_pairs_model_push(tail, p);
        assert(pairs_model(qs) =~= pairs_model(ps) + seq![(p.0@, item_model(p.1))]);
    }
}

fn value_at(s: &[u8], i: usize) -> (r: Result<(usize, Option<Item>), ParseError>)
    requires
        i <= s@.len(),
    ensures
        match r {
            Ok((j, v)) => v matches Some(it) && spec_parse_value(s@, i as int)
                == Ok::<(int, ItemModel), ParseError>((j as int, item_model(it))),
            Err(e) => spec_parse_value(s@, i as int) == Err::<(int, ItemModel), ParseError>(e),
        },
        r matches Ok((j, _)) ==> i <= j <= s@.len(),
    decreases s@.len() - i, 1nat,
{
    let a = value_prefix_at(s, i)?;
    if a < s.len() && s[a] == 0x5b {
        let (b, cond) = conditional_at(s, a)?;
        if cond {
            let (c, m) = many_with_braces_at(s, b)?;
            Ok((c, Some(Item::Many(m))))
        } else {
            let c = skip_braces_at(s, b)?;
            Ok((c, None))
        }
    } else if a < s.len() && (s[a] == 0x7b || s[a] == 0x0a || s[a] == 0x0d) {
        let b = newline_maybe_at(s, a);
        let (c, m) = many_with_braces_at(s, b)?;
        Ok((c, Some(Item::Many(m))))
    } else {
        let (b, v) = auto_string_at(s, a)?;
        Ok((b, Some(Item::String(v))))
    }
}

fn many_with_braces_at(s: &[u8], i: usize) -> (r: Result<(usize, Many), ParseError>)
    requires
        i <= s@.len(),
    ensures
        match r {
            Ok((j, m)) => spec_many_with_braces(s@, i as int)
                == Ok::<(int, Seq<PairModel>), ParseError>((j as int, pairs_model(m.0@))),
            Err(e) => spec_many_with_braces(s@, i as int) == Err::<(int, Seq<PairModel>), ParseError>(e),
        },
        r matches Ok((j, _)) ==> i < j <= s@.len(),
    decreases s@.len() - i, 0nat,
{
    let b = open_brace_at(s, i)?;
    let (c, m) = many_at(s, b)?;
    Ok((close_brace_at(s, c), m))
}

fn many_at(s: &[u8], i: usize) -> (r: Result<(usize, Many), ParseError>)
    requires
        i <= s@.len(),
    ensures
        match r {
            Ok((j, m)) => spec_parse_many(s@, i as int)
                == Ok::<(int, Seq<PairModel>), ParseError>((j as int, pairs_model(m.0@))),
            Err(e) => spec_parse_many(s@, i as int) == Err::<(int, Seq<PairModel>), ParseError>(e),
        },
        r matches Ok((j, _)) ==> i <= j <= s@.len(),
    decreases s@.len() - i, 1nat,
{
    let mut many: Vec<Pair> = Vec::new();
    let mut j = i;
    assert(pairs_model(many@) =~= Seq::empty());
    loop
        invariant
            i <= j <= s@.len(),
            match spec_parse_many(s@, j as int) {
                Ok((c, ps)) => spec_parse_many(s@, i as int)
                    == Ok::<(int, Seq<PairModel>), ParseError>((c, pairs_model(many@) + ps)),
                Err(e) => spec_parse_many(s@, i as int) == Err::<(int, Seq<PairModel>), ParseError>(e),
            },
        decreases s@.len() - j,
    {
        let a = newline_maybe_at(s, j);
        if a >= s.len() || s[a] == 0x7d {
            assert(pairs_model(many@) + Seq::<PairModel>::empty() =~= pairs_model(many@));
            return Ok((a, Many(many)));
        }
        let (b, p) = pair_at(s, a)?;
        match p {
            Some(p) => {
                let ghost before = many@;
                let ghost pm = (p.0@, item_model(p.1));
                proof { lemma_pairs_model_push(before, p); }
                many.push(p);
                proof {
                    if let Ok((c, ps)) = spec_parse_many(s@, b as int) {
                        assert(pairs_model(before) + prepend(Some(pm), ps) =~= pairs_model(many@) + ps);
                    }
                }
            },
            None => {},
        }
        j = b;
    }
}

fn pair_at(s: &[u8], i: usize) -> (r: Result<(usize, Option<Pair>), ParseError>)
    requires
        i <= s@.len(),
    ensures
        match r {
            Ok((j, p)) => p matches Some(q) && spec_parse_pair(s@, i as int)
                == Ok::<(int, Option<PairModel>), ParseError>((j as int, Some((q.0@, item_model(q.1))))),
            Err(e) => spec_parse_pair(s@, i as int) == Err::<(int, Option<PairModel>), ParseError>(e),
        },
        r matches Ok((j, _)) ==> i < j <= s@.len(),
    decreases s@.len() - i, 0nat,
{
    let (a, key) = auto_string_at(s, i)?;
    let (b, v) = value_at(s, a)?;
    match v {
        Some(v) => Ok((b, Some((key, v)))),
        None => Ok((b, None)),
    }
}

/// Parses a value: after blanks and an optional `=`, a conditional and the
/// block it guards, a block, or a string.
pub fn parse_value(s: &[u8]) -> (res: Result<(&[u8], Option<Item>), ParseError>)
    ensures
        match spec_parse_value(s@, 0) {
            Ok((j, m)) => res matches Ok((rest, Some(it))) && rest@ == s@.subrange(j, s@.len() as int)
                && item_model(it) == m,
            Err(e) => res matches Err(f) && f == e,
        },
{
    let (j, v) = value_at(s, 0)?;
    Ok((&s[j..s.len()], v))
}

/// Parses a pair: a key string and its value.
pub fn parse_pair(s: &[u8]) -> (res: Result<(&[u8], Option<Pair>), ParseError>)
    ensures
        match spec_parse_pair(s@, 0) {
            Ok((j, p)) => res matches Ok((rest, Some(q))) && rest@ == s@.subrange(j, s@.len() as int)
                && p == Some((q.0@, item_model(q.1))),
            Err(e) => res matches Err(f) && f == e,
        },
{
    let (j, p) = pair_at(s, 0)?;
    Ok((&s[j..s.len()], p))
}

/// Parses the pairs up to a `}` (left in the rest) or the end of the input.
pub fn parse_many(s: &[u8]) -> (res: Result<(&[u8], Many), ParseError>)
    ensures
        match spec_parse_many(s@, 0) {
            Ok((j, ps)) => res matches Ok((rest, m)) && rest@ == s@.subrange(j, s@.len() as int)
                && pairs_model(m.0@) == ps,
            Err(e) => res matches Err(f) && f == e,
        },
{
    let (j, m) = many_at(s, 0)?;
    Ok((&s[j..s.len()], m))
}

/// Parses a block: `{`, its pairs, and `}`; a block left open at the end
/// of the input is accepted.
pub fn parse_many_with_braces(s: &[u8]) -> (res: Result<(&[u8], Many), ParseError>)
    ensures
        match spec_many_with_braces(s@, 0) {
            Ok((j, ps)) => res matches Ok((rest, m)) && rest@ == s@.subrange(j, s@.len() as int)
                && pairs_model(m.0@) == ps,
            Err(e) => res matches Err(f) && f == e,
        },
{
    let (j, m) = many_with_braces_at(s, 0)?;
    Ok((&s[j..s.len()], m))
}

/// A whole keyvalues file: its pairs, which must reach the end of the
/// input.
pub open spec fn spec_parse_vdf(s: Seq<u8>) -> Result<Seq<PairModel>, ParseError> {
    match spec_parse_many(s, 0) {
        Err(e) => Err(e),
        Ok((c, ps)) => if c == s.len() {
            Ok(ps)
        } else {
            Err(ParseError::Eof)
        },
    }
}

/// Parses a keyvalues file. On success nothing is left of the input.
pub fn parse_vdf(s: &[u8]) -> (res: Result<(&[u8], Many), ParseError>)
    ensures
        match spec_parse_vdf(s@) {
            Ok(ps) => res matches Ok((rest, m)) && rest@ == Seq::<u8>::empty() && pairs_model(m.0@) == ps,
            Err(e) => res matches Err(f) && f == e,
        },
{
    let (j, m) = many_at(s, 0)?;
    if j == s.len() {
        Ok((&s[j..s.len()], m))
    } else {
        Err(ParseError::Eof)
    }
}

/// One step over the top-level pairs of a file without parsing their
/// values: the entry found (the start and end of its braced value and its
/// key) or why there is none, and where the next step starts.
pub open spec fn spec_next_entry(t: Seq<u8>) -> (Option<Result<(int, Seq<u8>, int), ParseError>>, int) {
    let a = spec_newline_maybe(t, 0);
    if !(0 <= a < t.len()) || t[a] == 0x7d {
        (None, a)
    } else {
        match spec_auto_string(t, a) {
            Err(e) => (Some(Err(e)), a),
            Ok((b, key)) => match spec_skip_braces(t, b) {
                Err(e) => (Some(Err(e)), b),
                Ok(d) => (Some(Ok((b, key, d))), d),
            },
        }
    }
}

/// Whether a step stopped because the block after a key could not be
/// skipped.
pub open spec fn spec_block_failed(t: Seq<u8>) -> bool {
    let a = spec_newline_maybe(t, 0);
    &&& 0 <= a < t.len() && t[a] != 0x7d
    &&& spec_auto_string(t, a) matches Ok((b, _)) && spec_skip_braces(t, b) is Err
}

/// Walks the top-level pairs of a file whose values are all blocks, handing
/// out each key with the bytes of its block, so that the blocks can be
/// parsed apart.
pub struct ParseManyPar<'a> {
    string: &'a [u8],
    block_failed: bool,
}

impl<'a> View for ParseManyPar<'a> {
    type V = Seq<u8>;

    /// The input that is left.
    closed spec fn view(&self) -> Seq<u8> {
        self.string@
    }
}

impl<'a> ParseManyPar<'a> {
    pub fn new(string: &'a [u8]) -> (r: Self)
        ensures
            r@ == string@,
            !r.last_block_failed(),
    {
        ParseManyPar { string, block_failed: false }
    }

    /// Whether the last step failed while skipping the block after a key.
    pub closed spec fn last_block_failed(&self) -> bool {
        self.block_failed
    }

    /// Whether the last step failed while skipping the block after a key.
    pub fn skip_failed(&self) -> (r: bool)
        ensures
            r == self.last_block_failed(),
    {
        self.block_failed
    }

    /// After the walk has stopped, whether it reached the end of the input:
    /// a `}` left over is refused as unread input.
    pub fn finish(&self) -> (r: Result<(), ParseError>)
        ensures
            r is Ok <==> self@.len() == 0,
            r matches Err(e) ==> e == ParseError::Eof,
    {
        if self.string.len() == 0 {
            Ok(())
        } else {
            Err(ParseError::Eof)
        }
    }

    /// The next top-level entry: `None` at the end of the input or at a `}`;
    /// else the key with the rest after the entry and the bytes of its
    /// block, or the error that stopped it. After an error the walk stands
    /// where the failed step began.
    pub fn next_entry(&mut self) -> (r: Option<Result<(&'a [u8], (Vec<u8>, &'a [u8])), ParseError>>)
        ensures
            ({
                let t = old(self)@;
                let (step, next) = spec_next_entry(t);
                &&& 0 <= next <= t.len()
                &&& final(self)@ == t.subrange(next, t.len() as int)
                &&& final(self).last_block_failed() == spec_block_failed(t)
                &&& match step {
                    None => r is None,
                    Some(Err(e)) => r matches Some(Err(f)) && f == e,
                    Some(Ok((b, key, d))) => r matches Some(Ok((rest, (k, block))))
                        && rest@ == t.subrange(d, t.len() as int) && k@ == key
                        && block@ == t.subrange(b, d),
                }
            }),
    {
        let t = self.string;
        proof {
            lemma_newline_maybe(t@, 0);
            lemma_auto_string(t@, 0);
        }
        self.block_failed = false;
        let a = newline_maybe_at(t, 0);
        self.string = &t[a..t.len()];
        if a >= t.len() || t[a] == 0x7d {
            return None;
        }
        let (b, key) = match auto_string_at(t, a) {
            Ok(r) => r,
            Err(e) => {
                return Some(Err(e));
            },
        };
        self.string = &t[b..t.len()];
        match skip_braces_at(t, b) {
            Ok(d) => {
                self.string = &t[d..t.len()];
                Some(Ok((&t[d..t.len()], (key, &t[b..d]))))
            },
            Err(e) => {
                self.block_failed = true;
                Some(Err(e))
            },
        }
    }
}

/// Every value that parses consumes at least one byte and ends inside the
/// input.
pub proof fn lemma_value_advances(s: Seq<u8>, i: int)
    requires
        0 <= i <= s.len(),
    ensures
        spec_parse_value(s, i) matches Ok((j, _)) ==> i < j <= s.len(),
    decreases s.len() - i, 1nat,
{
    lemma_value_prefix(s, i);
    if let Ok(a) = spec_value_prefix(s, i) {
        if 0 <= a < s.len() && s[a] == 0x5b {
            lemma_conditional(s, a);
            if let Ok(b) = spec_conditional(s, a) {
                lemma_block_advances(s, b);
            }
        } else if 0 <= a < s.len() && (s[a] == 0x7b || s[a] == 0x0a || s[a] == 0x0d) {
            lemma_newline_maybe(s, a);
            lemma_block_advances(s, spec_newline_maybe(s, a));
        } else {
            lemma_auto_string(s, a);
        }
    }
}

/// Every block that parses consumes at least one byte and ends right after
/// its closing `}` or at the end of the input.
pub proof fn lemma_block_advances(s: Seq<u8>, i: int)
    requires
        0 <= i <= s.len(),
    ensures
        spec_many_with_braces(s, i) matches Ok((j, _)) ==> i < j <= s.len() && (j == s.len()
            || s[j - 1] == 0x7d),
    decreases s.len() - i, 0nat,
{
    lemma_open_brace(s, i);
    if let Ok(b) = spec_open_brace(s, i) {
        lemma_many_advances(s, b);
    }
}

/// A run of pairs that parses ends inside the input, at a `}` or at the end.
pub proof fn lemma_many_advances(s: Seq<u8>, i: int)
    requires
        0 <= i <= s.len(),
    ensures
        spec_parse_many(s, i) matches Ok((j, _)) ==> i <= j <= s.len() && (j == s.len() || s[j]
            == 0x7d),
    decreases s.len() - i, 1nat,
{
    lemma_newline_maybe(s, i);
    let a = spec_newline_maybe(s, i);
    if 0 <= a < s.len() && s[a] != 0x7d {
        lemma_pair_advances(s, a);
        if let Ok((b, _)) = spec_parse_pair(s, a) {
            lemma_many_advances(s, b);
        }
    }
}

/// Every pair that parses consumes at least one byte and ends inside the
/// input; so the check on a pair's end in [`spec_parse_many`] always
/// passes.
pub proof fn lemma_pair_advances(s: Seq<u8>, i: int)
    requires
        0 <= i <= s.len(),
    ensures
        spec_parse_pair(s, i) matches Ok((j, _)) ==> i < j <= s.len(),
    decreases s.len() - i, 0nat,
{
    lemma_auto_string(s, i);
    if let Ok((a, _)) = spec_auto_string(s, i) {
        lemma_value_advances(s, a);
    }
}

proof fn lemma_value_skips(s: Seq<u8>, i: int, depth: nat)
    requires
        0 <= i <= s.len(),
    ensures
        spec_parse_value(s, i) matches Ok((j, _)) ==> spec_skip_tokens(s, i, depth, true)
            == spec_skip_tokens(s, j, depth, false),
    decreases s.len() - i, 1nat,
{
    lemma_value_prefix(s, i);
    if let Ok(a) = spec_value_prefix(s, i) {
        if a < s.len() {
            lemma_conditional(s, a);
            lemma_run_end(s, a, ByteClass::Unquoted);
            lemma_escaped_inner(s, a + 1);
            lemma_auto_string(s, a);
            if s[a] == 0x5b {
                if let Ok(b) = spec_conditional(s, a) {
                    lemma_block_skips(s, b, depth);
                }
            } else if s[a] == 0x7b || s[a] == 0x0a || s[a] == 0x0d {
                lemma_newline_maybe(s, a);
                lemma_skip_after_newline_maybe(s, a, depth);
                lemma_block_skips(s, spec_newline_maybe(s, a), depth);
            }
        }
    }
}

proof fn lemma_block_skips(s: Seq<u8>, i: int, depth: nat)
    requires
        0 <= i <= s.len(),
    ensures
        spec_many_with_braces(s, i) matches Ok((j, _)) ==> spec_skip_tokens(s, i, depth, false)
            == spec_skip_tokens(s, j, depth, false),
    decreases s.len() - i, 0nat,
{
    lemma_newline_maybe(s, i);
    let a = spec_newline_maybe(s, i);
    if 0 <= a < s.len() && s[a] == 0x7b {
        lemma_newline_maybe(s, a + 1);
        lemma_skip_after_newline_maybe(s, a + 1, depth + 1);
        let b = spec_newline_maybe(s, a + 1);
        lemma_many_skips(s, b, depth + 1);
        lemma_many_advances(s, b);
        if let Ok((c, _)) = spec_parse_many(s, b) {
            if c < s.len() {
                assert(run_end(s, c, ByteClass::Blank) == c);
                assert(spec_newline_maybe(s, c) == c);
            }
        }
    }
}

proof fn lemma_many_skips(s: Seq<u8>, i: int, depth: nat)
    requires
        0 <= i <= s.len(),
    ensures
        spec_parse_many(s, i) matches Ok((c, _)) ==> spec_skip_tokens(s, i, depth, false)
            == spec_skip_tokens(s, c, depth, false),
    decreases s.len() - i, 1nat,
{
    lemma_newline_maybe(s, i);
    lemma_skip_after_newline_maybe(s, i, depth);
    let a = spec_newline_maybe(s, i);
    if 0 <= a < s.len() && s[a] != 0x7d {
        lemma_newline_maybe_idempotent(s, i);
        lemma_pair_skips(s, a, depth);
        lemma_pair_advances(s, a);
        if let Ok((b, _)) = spec_parse_pair(s, a) {
            lemma_many_skips(s, b, depth);
        }
    }
}

proof fn lemma_pair_skips(s: Seq<u8>, i: int, depth: nat)
    requires
        0 <= i <= s.len(),
        spec_newline_maybe(s, i) == i,
    ensures
        spec_parse_pair(s, i) matches Ok((j, _)) ==> spec_skip_tokens(s, i, depth, false)
            == spec_skip_tokens(s, j, depth, false),
    decreases s.len() - i, 0nat,
{
    lemma_auto_string(s, i);
    lemma_run_end(s, i, ByteClass::Unquoted);
    lemma_conditional(s, i);
    if i < s.len() {
        lemma_escaped_inner(s, i + 1);
    }
    if let Ok((a, _)) = spec_auto_string(s, i) {
        lemma_value_skips(s, a, depth);
    }
}

/// Skipping a block without parsing it consumes exactly what parsing it
/// consumes, whenever it parses.
pub proof fn lemma_skip_braces_matches_block(s: Seq<u8>, i: int)
    requires
        0 <= i <= s.len(),
    ensures
        spec_many_with_braces(s, i) matches Ok((j, _)) ==> spec_skip_braces(s, i) == Ok::<int, ParseError>(j),
{
    lemma_open_brace(s, i);
    if let Ok(b) = spec_open_brace(s, i) {
        lemma_many_skips(s, b, 0);
        lemma_many_advances(s, b);
        if let Ok((c, _)) = spec_parse_many(s, b) {
            if c < s.len() {
                assert(run_end(s, c, ByteClass::Blank) == c);
                assert(spec_newline_maybe(s, c) == c);
            }
        }
    }
}

/// A whole file is its run of pairs: when the pairs reach the end of the
/// input, the file gives exactly those pairs, in order; when they stop
/// before it, the file is refused as having input left over.
pub proof fn lemma_vdf_is_its_pairs(s: Seq<u8>)
    ensures
        spec_parse_many(s, 0) matches Ok((c, ps)) ==> (c == s.len() ==> spec_parse_vdf(s) == Ok::<
            Seq<PairModel>,
            ParseError,
        >(ps)) && (c != s.len() ==> spec_parse_vdf(s) == Err::<Seq<PairModel>, ParseError>(
            ParseError::Eof,
        )),
        spec_parse_many(s, 0) matches Err(e) ==> spec_parse_vdf(s) == Err::<Seq<PairModel>, ParseError>(e),
{
}

/// A step of the walk over top-level entries reads the key and skips the
/// block after it: when the key reads and the block skips, the step hands
/// out that key with exactly the bytes skipped; and when the block after
/// the key parses, the bytes handed out are exactly those the parse reads
/// (wherever the block opens, on the key's line or a later one).
pub proof fn lemma_next_entry_reads_key_and_block(t: Seq<u8>)
    ensures
        ({
            let a = spec_newline_maybe(t, 0);
            (0 <= a < t.len() && t[a] != 0x7d) ==> (spec_auto_string(t, a) matches Ok((b, key)) ==> {
                &&& spec_skip_braces(t, b) matches Ok(d) ==> spec_next_entry(t) == (
                    Some(Ok::<(int, Seq<u8>, int), ParseError>((b, key, d))),
                    d,
                )
                &&& spec_many_with_braces(t, b) matches Ok((j, _)) ==> spec_next_entry(t) == (
                    Some(Ok::<(int, Seq<u8>, int), ParseError>((b, key, j))),
                    j,
                )
            })
        }),
{
    let a = spec_newline_maybe(t, 0);
    lemma_newline_maybe(t, 0);
    lemma_auto_string(t, a);
    if 0 <= a < t.len() && t[a] != 0x7d {
        if let Ok((b, key)) = spec_auto_string(t, a) {
            lemma_skip_braces_matches_block(t, b);
        }
    }
}

} // verus!
