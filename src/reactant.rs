use vstd::prelude::*;

use crate::item::Item;

verus! {

/// One side of a recipe: a quantity of an item per run.
#[derive(Clone, Debug)]
pub struct Reactant {
    pub item: Item,
    pub quantity: u32,
}

impl Reactant {
    pub fn new(item: Item, quantity: u32) -> (r: Self)
        ensures
            r.item == item,
            r.quantity == quantity,
    {
        Reactant { item, quantity }
    }

    pub fn item(&self) -> (r: &Item)
        ensures
            *r == self.item,
    {
        &self.item
    }

    pub fn item_id(&self) -> (r: &str)
        ensures
            r@ == self.item.spec_id(),
    {
        self.item.id()
    }

    pub fn quantity(&self) -> (r: u32)
        ensures
            r == self.quantity,
    {
        self.quantity
    }

    pub fn duplicate(&self) -> (r: Self)
        ensures
            r == *self,
    {
        Reactant { item: self.item.duplicate(), quantity: self.quantity }
    }
}

/// A copy of each reactant, in order.
pub fn duplicate_reactants(v: &[Reactant]) -> (r: Vec<Reactant>)
    ensures
        r@ == v@,
{
    let mut r: Vec<Reactant> = Vec::new();
    let mut i: usize = 0;
    while i < v.len()
        invariant
            i <= v@.len(),
            r@ == v@.subrange(0, i as int),
        decreases v@.len() - i,
    {
        r.push(v[i].duplicate());
        i = i + 1;
    }
    assert(r@ =~= v@);
    r
}

} // verus!
