//! Files written in the plain layout (`key value` pairs, blocks opened on
//! the line after their key) and what parsing gives back of them.
use vstd::prelude::*;
use crate::{ItemModel, ParseError};
use crate::parse::{PairModel, lemma_next_entry_reads_key_and_block, spec_many_with_braces, spec_next_entry, spec_parse_many, spec_parse_pair, spec_parse_value, spec_parse_vdf};
use crate::scan::{
    ByteClass, lemma_run_end_exact, run_end, spec_auto_string, spec_newline_maybe,
    spec_string, spec_whitespace,
};
use crate::suffix::{
    lemma_block_after_newline_maybe, lemma_many_after_newline_maybe, lemma_many_suffix, suffix,
};

verus! {

/// A byte that may stand in a plain word: one that may stand in an
/// unquoted string, other than `/` and `=`.
pub open spec fn word_byte(c: u8) -> bool {
    ByteClass::Unquoted.contains(c) && c != 0x2f && c != 0x3d
}

/// A non-empty run of word bytes.
pub open spec fn is_word(w: Seq<u8>) -> bool {
    w.len() > 0 && forall|k: int| 0 <= k < w.len() ==> word_byte(#[trigger] w[k])
}

/// Pairs whose keys and string values are words, at any depth of blocks.
pub open spec fn plain_pairs(ps: Seq<PairModel>) -> bool
    decreases ps,
{
    if ps.len() == 0 {
        true
    } else {
        &&& is_word(ps[0].0)
        &&& match ps[0].1 {
            ItemModel::Text(v) => is_word(v),
            ItemModel::Block(bs) => plain_pairs(bs),
            ItemModel::Integer(_) => false,
        }
        &&& plain_pairs(ps.subrange(1, ps.len() as int))
    }
}

/// The plain layout of pairs: each pair on its own line; a string value
/// after a space, a block on the next lines as `{`, its pairs and `}`.
pub open spec fn render_pairs(ps: Seq<PairModel>) -> Seq<u8>
    decreases ps,
{
    if ps.len() == 0 {
        Seq::empty()
    } else {
        ps[0].0 + match ps[0].1 {
            ItemModel::Text(v) => seq![0x20u8] + v,
            ItemModel::Block(bs) => seq![0x0au8, 0x7bu8, 0x0au8] + render_pairs(bs) + seq![0x7du8],
            ItemModel::Integer(_) => Seq::<u8>::empty(),
        } + seq![0x0au8] + render_pairs(ps.subrange(1, ps.len() as int))
    }
}

proof fn lemma_render_starts(ps: Seq<PairModel>)
    requires
        plain_pairs(ps),
        ps.len() > 0,
    ensures
        render_pairs(ps).len() > 0,
        word_byte(render_pairs(ps)[0]),
{
    assert(render_pairs(ps)[0] == ps[0].0[0]);
}

proof fn lemma_word_reads(s: Seq<u8>, i: int, w: Seq<u8>)
    requires
        0 <= i,
        i + w.len() < s.len(),
        s.subrange(i, i + w.len()) == w,
        is_word(w),
        !ByteClass::Unquoted.contains(s[i + w.len()]),
    ensures
        spec_auto_string(s, i) == Ok::<(int, Seq<u8>), ParseError>((i + w.len(), w)),
{
    assert forall|k: int| i <= k < i + w.len() implies ByteClass::Unquoted.contains(#[trigger] s[k]) by {
        assert(s[k] == s.subrange(i, i + w.len())[k - i]);
        assert(word_byte(w[k - i]));
    }
    assert(s[i] == w[0]);
    assert(spec_string(s, i) is Err);
    lemma_run_end_exact(s, i, i + w.len(), ByteClass::Unquoted);
}

proof fn lemma_newline_maybe_to(s: Seq<u8>, i: int, j: int)
    requires
        0 <= i <= j <= s.len(),
        forall|k: int| i <= k < j ==> ByteClass::Blank.contains(#[trigger] s[k]),
        j == s.len() || (!ByteClass::Blank.contains(s[j]) && s[j] != 0x2f),
    ensures
        spec_newline_maybe(s, i) == j,
{
    lemma_run_end_exact(s, i, j, ByteClass::Blank);
}

proof fn lemma_whitespace_to(s: Seq<u8>, i: int, j: int)
    requires
        0 <= i <= j <= s.len(),
        forall|k: int| i <= k < j ==> ByteClass::Space.contains(#[trigger] s[k]),
        j == s.len() || (!ByteClass::Space.contains(s[j]) && s[j] != 0x2f),
    ensures
        spec_whitespace(s, i) == Ok::<int, ParseError>(j),
{
    lemma_run_end_exact(s, i, j, ByteClass::Space);
}

/// A string value after one space: a word followed by a line break.
proof fn lemma_text_value(s: Seq<u8>, i: int, v: Seq<u8>)
    requires
        is_word(v),
        0 <= i,
        i + 1 + v.len() < s.len(),
        s[i] == 0x20,
        s.subrange(i + 1, i + 1 + v.len()) == v,
        s[i + 1 + v.len()] == 0x0a,
    ensures
        spec_parse_value(s, i) == Ok::<(int, ItemModel), ParseError>((i + 1 + v.len(), ItemModel::Text(v))),
{
    assert(s[i + 1] == s.subrange(i + 1, i + 1 + v.len())[0]);
    assert(word_byte(v[0]));
    lemma_whitespace_to(s, i, i + 1);
    lemma_word_reads(s, i + 1, v);
}

/// The pairs after a line break are read from the next line on.
proof fn lemma_rest_after_line(s: Seq<u8>, e: int, rest: Seq<PairModel>, t: Seq<u8>)
    requires
        0 <= e < s.len(),
        s[e] == 0x0a,
        suffix(s, e + 1) == render_pairs(rest) + t,
        spec_parse_many(render_pairs(rest) + t, 0) == Ok::<(int, Seq<PairModel>), ParseError>(
            (render_pairs(rest).len() as int, rest),
        ),
    ensures
        spec_parse_many(s, e) == Ok::<(int, Seq<PairModel>), ParseError>(
            (e + 1 + render_pairs(rest).len(), rest),
        ),
{
    assert(run_end(s, e, ByteClass::Blank) == run_end(s, e + 1, ByteClass::Blank));
    assert(spec_newline_maybe(s, e) == spec_newline_maybe(s, e + 1));
    lemma_many_after_newline_maybe(s, e);
    lemma_many_after_newline_maybe(s, e + 1);
    lemma_many_suffix(s, e + 1, 0);
}

/// A block opened on the line after its key.
proof fn lemma_block_value(s: Seq<u8>, i: int, bs: Seq<PairModel>)
    requires
        plain_pairs(bs),
        0 <= i,
        i + 3 + render_pairs(bs).len() < s.len(),
        s[i] == 0x0a,
        s[i + 1] == 0x7b,
        s[i + 2] == 0x0a,
        s.subrange(i + 3, i + 3 + render_pairs(bs).len()) == render_pairs(bs),
        s[i + 3 + render_pairs(bs).len()] == 0x7d,
    ensures
        spec_parse_value(s, i) == Ok::<(int, ItemModel), ParseError>(
            (i + 4 + render_pairs(bs).len(), ItemModel::Block(bs)),
        ),
        spec_many_with_braces(s, i) == Ok::<(int, Seq<PairModel>), ParseError>(
            (i + 4 + render_pairs(bs).len(), bs),
        ),
    decreases bs, 2nat,
{
    let b = render_pairs(bs);
    let c = i + 3 + b.len();
    lemma_whitespace_to(s, i, i);
    lemma_block_after_newline_maybe(s, i);
    lemma_newline_maybe_to(s, i, i + 1);
    if bs.len() > 0 {
        lemma_render_starts(bs);
        assert(s[i + 3] == s.subrange(i + 3, c)[0]);
    }
    lemma_newline_maybe_to(s, i + 2, i + 3);
    let tail = suffix(s, c);
    assert(suffix(s, i + 3) =~= b + tail);
    lemma_render_parses(bs, tail);
    lemma_many_suffix(s, i + 3, 0);
}

/// A key and a string value on one line.
proof fn lemma_text_line(key: Seq<u8>, v: Seq<u8>, u: Seq<u8>)
    requires
        is_word(key),
        is_word(v),
        u.len() > 0,
        u[0] == 0x0a,
    ensures
        spec_parse_pair(key + (seq![0x20u8] + v) + u, 0) == Ok::<(int, Option<PairModel>), ParseError>(
            ((key.len() + 1 + v.len()) as int, Some((key, ItemModel::Text(v))))),
{
    let s = key + (seq![0x20u8] + v) + u;
    let kl = key.len() as int;
    assert(s.subrange(0, kl) =~= key);
    assert(s[kl] == 0x20);
    lemma_word_reads(s, 0, key);
    assert(s.subrange(kl + 1, kl + 1 + v.len()) =~= v);
    assert(s[kl + 1 + v.len()] == 0x0a);
    lemma_text_value(s, kl, v);
}

/// A key, and a block opened on the next line.
proof fn lemma_block_line(key: Seq<u8>, bs: Seq<PairModel>, u: Seq<u8>)
    requires
        is_word(key),
        plain_pairs(bs),
    ensures
        ({
            let m = seq![0x0au8, 0x7bu8, 0x0au8] + render_pairs(bs) + seq![0x7du8];
            &&& spec_parse_pair(key + m + u, 0) == Ok::<(int, Option<PairModel>), ParseError>(
                ((key.len() + m.len()) as int, Some((key, ItemModel::Block(bs)))))
            &&& spec_auto_string(key + m + u, 0) == Ok::<(int, Seq<u8>), ParseError>((key.len() as int, key))
            &&& spec_many_with_braces(key + m + u, key.len() as int) == Ok::<(int, Seq<PairModel>), ParseError>(
                ((key.len() + m.len()) as int, bs))
        }),
    decreases bs, 3nat,
{
    let b = render_pairs(bs);
    let m = seq![0x0au8, 0x7bu8, 0x0au8] + b + seq![0x7du8];
    let s = key + m + u;
    let kl = key.len() as int;
    assert(s.subrange(0, kl) =~= key);
    assert(s[kl] == 0x0a);
    lemma_word_reads(s, 0, key);
    assert(s[kl + 1] == 0x7b);
    assert(s[kl + 2] == 0x0a);
    assert(s.subrange(kl + 3, kl + 3 + b.len()) =~= b);
    assert(s[kl + 3 + b.len()] == 0x7d);
    lemma_block_value(s, kl, bs);
}

/// The first line of the layout of pairs: its key and value read as the
/// first pair, which ends at a line break before the layout of the rest.
proof fn lemma_first_pair(ps: Seq<PairModel>, t: Seq<u8>)
    requires
        plain_pairs(ps),
        ps.len() > 0,
    ensures
        ({
            let s = render_pairs(ps) + t;
            let rest = ps.subrange(1, ps.len() as int);
            let e = render_pairs(ps).len() - 1 - render_pairs(rest).len();
            &&& spec_newline_maybe(s, 0) == 0
            &&& s[0] != 0x7d
            &&& 0 < e < s.len()
            &&& s[e] == 0x0a
            &&& suffix(s, e + 1) == render_pairs(rest) + t
            &&& spec_parse_pair(s, 0) == Ok::<(int, Option<PairModel>), ParseError>((e, Some(ps[0])))
        }),
    decreases ps, 0nat,
{
    let x = render_pairs(ps);
    let s = x + t;
    let key = ps[0].0;
    let kl = key.len() as int;
    let rest = ps.subrange(1, ps.len() as int);
    let r = render_pairs(rest);
    let m = match ps[0].1 {
        ItemModel::Text(v) => seq![0x20u8] + v,
        ItemModel::Block(bs) => seq![0x0au8, 0x7bu8, 0x0au8] + render_pairs(bs) + seq![0x7du8],
        ItemModel::Integer(_) => Seq::<u8>::empty(),
    };
    let u = seq![0x0au8] + r + t;
    assert(x == key + m + seq![0x0au8] + r);
    let e = kl + m.len();
    assert(s =~= key + m + u);
    assert(s[0] == key[0]);
    assert(word_byte(key[0]));
    lemma_run_end_exact(s, 0, 0, ByteClass::Blank);
    assert(s[e] == u[0]);
    assert(suffix(s, e + 1) =~= r + t);
    match ps[0].1 {
        ItemModel::Text(v) => {
            lemma_text_line(key, v, u);
        },
        ItemModel::Block(bs) => {
            lemma_block_line(key, bs, u);
        },
        ItemModel::Integer(_) => {},
    }
}

/// What the plain layout of pairs is read as: written out and followed by
/// the end of the input or a `}`, the pairs are read back, every one of
/// them in order (a block with no pairs included), up to the end of their
/// layout.
pub proof fn lemma_render_parses(ps: Seq<PairModel>, t: Seq<u8>)
    requires
        plain_pairs(ps),
        t.len() == 0 || t[0] == 0x7d,
    ensures
        spec_parse_many(render_pairs(ps) + t, 0) == Ok::<(int, Seq<PairModel>), ParseError>(
            (render_pairs(ps).len() as int, ps),
        ),
    decreases ps, 1nat,
{
    let x = render_pairs(ps);
    let s = x + t;
    if ps.len() == 0 {
        assert(s =~= t);
        assert(ps =~= Seq::<PairModel>::empty());
        if t.len() > 0 {
            lemma_run_end_exact(s, 0, 0, ByteClass::Blank);
        }
    } else {
        let rest = ps.subrange(1, ps.len() as int);
        let e = render_pairs(ps).len() - 1 - render_pairs(rest).len();
        lemma_first_pair(ps, t);
        lemma_render_parses(rest, t);
        lemma_rest_after_line(s, e, rest, t);
        assert(seq![ps[0]] + rest =~= ps);
    }
}

/// A file in the plain layout is read back as exactly the pairs it was
/// written from: every top-level pair, in order, with every nested block.
pub proof fn lemma_vdf_of_layout(ps: Seq<PairModel>)
    requires
        plain_pairs(ps),
    ensures
        spec_parse_vdf(render_pairs(ps)) == Ok::<Seq<PairModel>, ParseError>(ps),
{
    lemma_render_parses(ps, Seq::empty());
    assert(render_pairs(ps) + Seq::<u8>::empty() =~= render_pairs(ps));
}

/// A step of the walk over top-level entries, on a layout whose first pair
/// holds a block (opened on the line after its key): the step hands out
/// that key, and the bytes from the end of the key to the `}` that closes
/// its block, and the next step starts right there.
pub proof fn lemma_walk_of_layout(ps: Seq<PairModel>, t: Seq<u8>)
    requires
        plain_pairs(ps),
        ps.len() > 0,
        ps[0].1 is Block,
    ensures
        ({
            let kl = ps[0].0.len() as int;
            let e = render_pairs(ps).len() - 1 - render_pairs(ps.subrange(1, ps.len() as int)).len();
            spec_next_entry(render_pairs(ps) + t) == (
                Some(Ok::<(int, Seq<u8>, int), ParseError>((kl, ps[0].0, e))),
                e,
            )
        }),
{
    let s = render_pairs(ps) + t;
    let key = ps[0].0;
    let bs = ps[0].1->Block_0;
    let r = render_pairs(ps.subrange(1, ps.len() as int));
    let m = seq![0x0au8, 0x7bu8, 0x0au8] + render_pairs(bs) + seq![0x7du8];
    let u = seq![0x0au8] + r + t;
    assert(render_pairs(ps) == key + m + seq![0x0au8] + r);
    assert(s =~= key + m + u);
    assert(s[0] == key[0]);
    assert(word_byte(key[0]));
    lemma_run_end_exact(s, 0, 0, ByteClass::Blank);
    lemma_block_line(key, bs, u);
    lemma_next_entry_reads_key_and_block(s);
}

} // verus!
