//! The debug text of items: strings quoted and escaped, integers with a
//! `u32` suffix, blocks as `{key: value, ...}` maps.
use vstd::prelude::*;
use crate::{Item, ItemModel, Many, item_model, pairs_model};
use crate::parse::PairModel;

verus! {

/// What `String::from_utf8_lossy` makes of `bytes`.
pub uninterp spec fn lossy_utf8(bytes: Seq<u8>) -> Seq<char>;

/// The text that `{:?}` prints for a `str` holding `text`.
pub uninterp spec fn debug_str(text: Seq<char>) -> Seq<char>;

/// `String::from_utf8_lossy`: the text of `bytes`, with each invalid
/// sequence replaced. The contract names the result and states the one
/// fact that std documents of it: bytes that are valid UTF-8 give exactly
/// the text they encode.
#[verifier::external_body]
fn utf8_lossy(bytes: &[u8]) -> (r: String)
    ensures
        r@ == lossy_utf8(bytes@),
        vstd::utf8::valid_utf8(bytes@) ==> r@ == vstd::utf8::decode_utf8(bytes@),
{
    String::from_utf8_lossy(bytes).into_owned()
}

/// `<str as Debug>::fmt` through `format!("{:?}", ..)`: the quoted and
/// escaped form of the text. The contract only names the result.
#[verifier::external_body]
fn str_debug(text: &str) -> (r: String)
    ensures
        r@ == debug_str(text@),
{
    format!("{:?}", text)
}

/// The decimal digit for `d < 10`.
pub open spec fn digit(d: nat) -> char {
    (0x30 + d) as char
}

/// The decimal numeral of `n`, without leading zeros.
pub open spec fn decimal(n: nat) -> Seq<char>
    decreases n,
{
    if n < 10 {
        seq![digit(n)]
    } else {
        decimal(n / 10) + seq![digit(n % 10)]
    }
}

/// The numeral of one decimal digit.
fn digit_str(d: u32) -> (r: &'static str)
    requires
        d < 10,
    ensures
        r@ == seq![digit(d as nat)],
{
    if d == 0 {
        proof {
            reveal_strlit("0");
        }
        "0"
    } else if d == 1 {
        proof {
            reveal_strlit("1");
        }
        "1"
    } else if d == 2 {
        proof {
            reveal_strlit("2");
        }
        "2"
    } else if d == 3 {
        proof {
            reveal_strlit("3");
        }
        "3"
    } else if d == 4 {
        proof {
            reveal_strlit("4");
        }
        "4"
    } else if d == 5 {
        proof {
            reveal_strlit("5");
        }
        "5"
    } else if d == 6 {
        proof {
            reveal_strlit("6");
        }
        "6"
    } else if d == 7 {
        proof {
            reveal_strlit("7");
        }
        "7"
    } else if d == 8 {
        proof {
            reveal_strlit("8");
        }
        "8"
    } else {
        proof {
            reveal_strlit("9");
        }
        "9"
    }
}

/// The decimal numeral of `n`, as `{:?}` prints a `u32`.
fn u32_decimal(n: u32) -> (r: String)
    ensures
        r@ == decimal(n as nat),
    decreases n,
{
    if n < 10 {
        String::from_str(digit_str(n))
    } else {
        let mut r = u32_decimal(n / 10);
        r.append(digit_str(n % 10));
        r
    }
}

/// The debug text of an item.
pub open spec fn item_debug(m: ItemModel) -> Seq<char>
    decreases m,
{
    match m {
        ItemModel::Text(t) => debug_str(lossy_utf8(t)),
        ItemModel::Integer(n) => decimal(n as nat) + "u32"@,
        ItemModel::Block(ps) => "{"@ + entries_debug(ps) + "}"@,
    }
}

/// The entries of a block, `key: value`, separated by `, `.
pub open spec fn entries_debug(ps: Seq<PairModel>) -> Seq<char>
    decreases ps,
{
    if ps.len() == 0 {
        Seq::empty()
    } else if ps.len() == 1 {
        debug_str(lossy_utf8(ps[0].0)) + ": "@ + item_debug(ps[0].1)
    } else {
        entries_debug(ps.subrange(0, ps.len() - 1)) + ", "@ + debug_str(
            lossy_utf8(ps[ps.len() - 1].0),
        ) + ": "@ + item_debug(ps[ps.len() - 1].1)
    }
}

impl Item {
    /// The debug text of this item: a string as `{:?}` prints it, an
    /// integer followed by `u32`, a block as a map.
    pub fn debug_string(&self) -> (r: String)
        ensures
            r@ == item_debug(item_model(*self)),
            *self matches Item::String(b) ==> (vstd::utf8::valid_utf8(b@) ==> r@ == debug_str(
                vstd::utf8::decode_utf8(b@),
            )),
        decreases self,
    {
        match self {
            Item::String(s) => {
                let text = utf8_lossy(s.as_slice());
                str_debug(text.as_str())
            },
            Item::Integer(u) => {
                let mut r = u32_decimal(*u);
                r.append("u32");
                r
            },
            Item::Many(m) => m.debug_string(),
        }
    }
}

impl Many {
    /// The debug text of this block: `{`, the entries `key: value`
    /// separated by `, `, and `}`.
    pub fn debug_string(&self) -> (r: String)
        ensures
            r@ == item_debug(ItemModel::Block(pairs_model(self.0@))),
        decreases self,
    {
        let mut r = String::from_str("{");
        let n = self.0.len();
        let mut i: usize = 0;
        let ghost ps = pairs_model(self.0@);
        proof {
            crate::lemma_pairs_model_index(self.0@);
            assert(ps.take(0) =~= Seq::<PairModel>::empty());
            assert(r@ =~= "{"@ + entries_debug(ps.take(0)));
        }
        while i < n
            invariant
                n == self.0@.len(),
                ps == pairs_model(self.0@),
                ps.len() == n,
                forall|j: int| 0 <= j < n ==> #[trigger] ps[j] == (self.0@[j].0@, item_model(self.0@[j].1)),
                i <= n,
                r@ == "{"@ + entries_debug(ps.take(i as int)),
            decreases n - i,
        {
            if i > 0 {
                r.append(", ");
            }
            let key = utf8_lossy(self.0[i].0.as_slice());
            let key = str_debug(key.as_str());
            r.append(key.as_str());
            r.append(": ");
            let value = self.0[i].1.debug_string();
            r.append(value.as_str());
            proof {
                let t = ps.take(i + 1);
                assert(t.subrange(0, i as int) =~= ps.take(i as int));
                assert(t[i as int] == ps[i as int]);
                if i == 0 {
                    assert(ps.take(0) =~= Seq::<PairModel>::empty());
                }
                assert(r@ =~= "{"@ + entries_debug(t));
            }
            i = i + 1;
        }
        r.append("}");
        proof {
            assert(ps.take(n as int) =~= ps);
            assert(r@ =~= "{"@ + entries_debug(ps) + "}"@);
        }
        r
    }
}

/// The pretty debug text of an item whose line starts with `pad`: as
/// [`item_debug`], but a non-empty block puts each entry on a line of its
/// own, indented four spaces deeper, with a comma after every entry.
pub open spec fn item_pretty(m: ItemModel, pad: Seq<char>) -> Seq<char>
    decreases m,
{
    match m {
        ItemModel::Text(t) => debug_str(lossy_utf8(t)),
        ItemModel::Integer(n) => decimal(n as nat) + "u32"@,
        ItemModel::Block(ps) => if ps.len() == 0 {
            "{}"@
        } else {
            "{\n"@ + entries_pretty(ps, pad + "    "@) + pad + "}"@
        },
    }
}

/// The entries of a block, each on its own line starting with `pad`.
pub open spec fn entries_pretty(ps: Seq<PairModel>, pad: Seq<char>) -> Seq<char>
    decreases ps,
{
    if ps.len() == 0 {
        Seq::empty()
    } else {
        entries_pretty(ps.subrange(0, ps.len() - 1), pad) + pad + debug_str(
            lossy_utf8(ps[ps.len() - 1].0),
        ) + ": "@ + item_pretty(ps[ps.len() - 1].1, pad) + ",\n"@
    }
}

impl Item {
    /// The pretty debug text of this item, as `{:#?}` lays out maps.
    pub fn debug_string_pretty(&self) -> (r: String)
        ensures
            r@ == item_pretty(item_model(*self), Seq::empty()),
            *self matches Item::String(b) ==> (vstd::utf8::valid_utf8(b@) ==> r@ == debug_str(
                vstd::utf8::decode_utf8(b@),
            )),
    {
        let pad = String::new();
        self.pretty_at(pad.as_str())
    }

    fn pretty_at(&self, pad: &str) -> (r: String)
        ensures
            r@ == item_pretty(item_model(*self), pad@),
            *self matches Item::String(b) ==> (vstd::utf8::valid_utf8(b@) ==> r@ == debug_str(
                vstd::utf8::decode_utf8(b@),
            )),
        decreases self,
    {
        match self {
            Item::String(s) => {
                let text = utf8_lossy(s.as_slice());
                str_debug(text.as_str())
            },
            Item::Integer(u) => {
                let mut r = u32_decimal(*u);
                r.append("u32");
                r
            },
            Item::Many(m) => m.pretty_at(pad),
        }
    }
}

impl Many {
    /// The pretty debug text of this block, as `{:#?}` lays out maps.
    pub fn debug_string_pretty(&self) -> (r: String)
        ensures
            r@ == item_pretty(ItemModel::Block(pairs_model(self.0@)), Seq::empty()),
    {
        let pad = String::new();
        self.pretty_at(pad.as_str())
    }

    fn pretty_at(&self, pad: &str) -> (r: String)
        ensures
            r@ == item_pretty(ItemModel::Block(pairs_model(self.0@)), pad@),
        decreases self,
    {
        let n = self.0.len();
        let ghost ps = pairs_model(self.0@);
        proof {
            crate::lemma_pairs_model_index(self.0@);
        }
        if n == 0 {
            return String::from_str("{}");
        }
        let mut inner = String::from_str(pad);
        inner.append("    ");
        let mut r = String::from_str("{\n");
        let mut i: usize = 0;
        proof {
            assert(ps.take(0) =~= Seq::<PairModel>::empty());
            assert(r@ =~= "{\n"@ + entries_pretty(ps.take(0), inner@));
        }
        while i < n
            invariant
                n == self.0@.len(),
                ps == pairs_model(self.0@),
                ps.len() == n,
                forall|j: int| 0 <= j < n ==> #[trigger] ps[j] == (self.0@[j].0@, item_model(self.0@[j].1)),
                i <= n,
                inner@ == pad@ + "    "@,
                r@ == "{\n"@ + entries_pretty(ps.take(i as int), inner@),
            decreases n - i,
        {
            r.append(inner.as_str());
            let key = utf8_lossy(self.0[i].0.as_slice());
            let key = str_debug(key.as_str());
            r.append(key.as_str());
            r.append(": ");
            let value = self.0[i].1.pretty_at(inner.as_str());
            r.append(value.as_str());
            r.append(",\n");
            proof {
                let t = ps.take(i + 1);
                assert(t.subrange(0, i as int) =~= ps.take(i as int));
                assert(t[i as int] == ps[i as int]);
                assert(r@ =~= "{\n"@ + entries_pretty(t, inner@));
            }
            i = i + 1;
        }
        r.append(pad);
        r.append("}");
        proof {
            assert(ps.take(n as int) =~= ps);
            assert(r@ =~= "{\n"@ + entries_pretty(ps, pad@ + "    "@) + pad@ + "}"@);
        }
        r
    }
}

} // verus!
