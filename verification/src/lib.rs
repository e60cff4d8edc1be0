//! A parser for Valve's keyvalues (VDF) text format.
//!
//! `scan` holds the byte-level pieces of the grammar (blanks, comments,
//! strings, conditionals, brace skipping); `parse` builds pairs and blocks
//! from them. Every parser is specified by a spec function over the input
//! bytes and a start position, and the executable code is proved to compute
//! exactly that function.
use vstd::prelude::*;

pub mod scan;
pub mod parse;
pub mod render;
pub mod suffix;
pub mod layout;

verus! {

/// Why a parser refused its input, named after the step that failed.
#[derive(Debug, Clone, Copy, PartialEq, Eq)]
pub enum ParseError {
    /// An expected literal (a quote, a brace, a bracket) was not there.
    Tag,
    /// A run that must hold at least one byte was empty.
    TakeWhile1,
    /// A `/*` comment has no closing `*/`.
    TakeUntil,
    /// Input was left over where the whole input had to be consumed.
    Eof,
}

/// A value in a keyvalues file.
#[derive(Debug, PartialEq, Eq)]
pub enum Item {
    /// A quoted or unquoted string, as the bytes it stands for.
    String(Vec<u8>),
    /// An integer value.
    Integer(u32),
    /// A block of pairs between braces.
    Many(Many),
}

/// A key and its value.
pub type Pair = (Vec<u8>, Item);

/// The pairs of a block, in the order in which they appear.
#[derive(Debug, PartialEq, Eq)]
pub struct Many(pub Vec<Pair>);

/// The mathematical value of an [`Item`].
pub enum ItemModel {
    Text(Seq<u8>),
    Integer(u32),
    Block(Seq<(Seq<u8>, ItemModel)>),
}

/// The value of each pair of a sequence, in order.
pub open spec fn pairs_model(ps: Seq<Pair>) -> Seq<(Seq<u8>, ItemModel)>
    decreases ps,
{
    if ps.len() == 0 {
        Seq::empty()
    } else {
        seq![(ps[0].0@, item_model(ps[0].1))] + pairs_model(ps.subrange(1, ps.len() as int))
    }
}

/// The value of an item.
pub open spec fn item_model(it: Item) -> ItemModel
    decreases it,
{
    match it {
        Item::String(s) => ItemModel::Text(s@),
        Item::Integer(n) => ItemModel::Integer(n),
        Item::Many(m) => ItemModel::Block(pairs_model(m.0@)),
    }
}

/// The model of a sequence of pairs has one entry per pair, in order.
pub proof fn lemma_pairs_model_index(ps: Seq<Pair>)
    ensures
        pairs_model(ps).len() == ps.len(),
        forall|i: int| 0 <= i < ps.len() ==> #[trigger] pairs_model(ps)[i] == (ps[i].0@, item_model(ps[i].1)),
    decreases ps.len(),
{
    if ps.len() > 0 {
        let tail = ps.subrange(1, ps.len() as int);
        lemma_pairs_model_index(tail);
        assert forall|i: int| 0 <= i < ps.len() implies #[trigger] pairs_model(ps)[i] == (ps[i].0@, item_model(ps[i].1)) by {
            if i > 0 {
                assert(ps[i] == tail[i - 1]);
            }
        }
    }
}

} // verus!
