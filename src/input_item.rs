use vstd::prelude::*;

use crate::error::Error;
use crate::text::{first_index_of, owned, parse_u32, split_commas, split_on_commas, split_once_dot, u32_text_value};

verus! {

/// An amount of an item per minute, written `N.item_id`.
#[derive(Clone, Debug)]
pub struct InputItem {
    pub name: String,
    pub quantity: u32,
}

/// `r` is what the text `s` reads as: the count before the first dot and the item
/// id after it, or a parsing error that quotes `s`.
pub open spec fn reads_as(s: Seq<char>, r: Result<InputItem, Error>) -> bool {
    match first_index_of(s, '.') {
        Some(k) => match u32_text_value(s.take(k)) {
            Some(q) => r matches Ok(it) && it.name@ == s.skip(k + 1) && it.quantity == q,
            None => r matches Err(Error::TargetParsingFailed(m)) && m@ == s,
        },
        None => r matches Err(Error::TargetParsingFailed(m)) && m@ == s,
    }
}

impl InputItem {
    pub fn parse(s: &str) -> (r: Result<InputItem, Error>)
        ensures
            reads_as(s@, r),
    {
        match split_once_dot(s) {
            None => Err(Error::TargetParsingFailed(owned(s))),
            Some((qty, name)) => match parse_u32(qty) {
                Some(quantity) => Ok(InputItem { name: owned(name), quantity }),
                None => Err(Error::TargetParsingFailed(owned(s))),
            },
        }
    }
}

/// `e` holds the item id and the count that `piece` reads as.
pub open spec fn entry_reads(piece: Seq<char>, e: (String, u32)) -> bool {
    exists|it: InputItem| reads_as(piece, Ok(it)) && e.0 == it.name && e.1 == it.quantity
}

/// Reads a comma-separated list of `N.item_id` entries; the first piece that does not
/// read gives the error.
pub fn parse_input_items(text: &str) -> (r: Result<Vec<(String, u32)>, Error>)
    ensures
        ({
            let pieces = split_commas(text@);
            match r {
                Ok(v) => v@.len() == pieces.len() && forall|k: int|
                    0 <= k < pieces.len() ==> entry_reads(#[trigger] pieces[k], v@[k]),
                Err(e) => exists|k: int| 0 <= k < pieces.len() && reads_as(#[trigger] pieces[k], Err(e)),
            }
        }),
{
    let pieces = split_on_commas(text);
    let ghost spieces = split_commas(text@);
    let mut v: Vec<(String, u32)> = Vec::new();
    let mut i: usize = 0;
    while i < pieces.len()
        invariant
            i <= pieces@.len(),
            pieces@.map_values(|p: &str| p@) == spieces,
            spieces == split_commas(text@),
            v@.len() == i,
            forall|k: int| 0 <= k < i ==> entry_reads(#[trigger] spieces[k], v@[k]),
        decreases pieces@.len() - i,
    {
        assert(spieces[i as int] == pieces@[i as int]@);
        match InputItem::parse(pieces[i]) {
            Ok(it) => {
                let ghost g = it;
                v.push((it.name, it.quantity));
                assert(reads_as(spieces[i as int], Ok(g)) && v@[i as int].0 == g.name && v@[i as int].1 == g.quantity);
                assert(entry_reads(spieces[i as int], v@[i as int]));
            },
            Err(e) => {
                return Err(e);
            },
        }
        i = i + 1;
    }
    Ok(v)
}

} // verus!
