use vstd::prelude::*;

use crate::building::Building;
use crate::item::Item;
use crate::reactant::{duplicate_reactants, Reactant};

verus! {

/// A transformation of input reactants into output reactants, run by a building
/// over `duration` seconds. Its identity is its id.
#[derive(Clone, Debug)]
pub struct Recipe {
    pub id: String,
    pub duration: u32,
    pub building: Building,
    pub alternate: bool,
    pub inputs: Vec<Reactant>,
    pub outputs: Vec<Reactant>,
}

/// Some reactant of `rs` is of the item with id `id`.
pub open spec fn reactants_use(rs: Seq<Reactant>, id: Seq<char>) -> bool {
    exists|k: int| 0 <= k < rs.len() && rs[k].item.spec_id() == id
}

/// The items of a sequence of reactants, in order.
pub open spec fn items_of(rs: Seq<Reactant>) -> Seq<Item> {
    rs.map_values(|x: Reactant| x.item)
}

impl Recipe {
    /// Two recipe values that agree on every field.
    pub open spec fn same_as(&self, o: &Recipe) -> bool {
        &&& self.id == o.id
        &&& self.duration == o.duration
        &&& self.building == o.building
        &&& self.alternate == o.alternate
        &&& self.inputs@ == o.inputs@
        &&& self.outputs@ == o.outputs@
    }

    pub open spec fn spec_id(&self) -> Seq<char> {
        self.id@
    }

    pub open spec fn spec_uses_manual_resources(&self) -> bool {
        exists|k: int| 0 <= k < self.inputs@.len() && self.inputs@[k].item.spec_picked_manually()
    }

    pub open spec fn spec_uses_item(&self, id: Seq<char>) -> bool {
        reactants_use(self.inputs@, id) || reactants_use(self.outputs@, id)
    }

    pub fn new(
        id: String,
        duration: u32,
        building: Building,
        alternate: bool,
        inputs: Vec<Reactant>,
        outputs: Vec<Reactant>,
    ) -> (r: Self)
        ensures
            r.id == id,
            r.duration == duration,
            r.building == building,
            r.alternate == alternate,
            r.inputs@ == inputs@,
            r.outputs@ == outputs@,
    {
        Recipe { id, duration, building, alternate, inputs, outputs }
    }

    pub fn id(&self) -> (r: &str)
        ensures
            r@ == self.id@,
    {
        self.id.as_str()
    }

    pub fn duration(&self) -> (r: u32)
        ensures
            r == self.duration,
    {
        self.duration
    }

    pub fn building(&self) -> (r: &Building)
        ensures
            *r == self.building,
    {
        &self.building
    }

    pub fn alternate(&self) -> (r: bool)
        ensures
            r == self.alternate,
    {
        self.alternate
    }

    pub fn inputs(&self) -> (r: &[Reactant])
        ensures
            r@ == self.inputs@,
    {
        self.inputs.as_slice()
    }

    pub fn outputs(&self) -> (r: &[Reactant])
        ensures
            r@ == self.outputs@,
    {
        self.outputs.as_slice()
    }

    pub fn duplicate(&self) -> (r: Self)
        ensures
            r.same_as(self),
    {
        Recipe {
            id: self.id.clone(),
            duration: self.duration,
            building: self.building.duplicate(),
            alternate: self.alternate,
            inputs: duplicate_reactants(self.inputs.as_slice()),
            outputs: duplicate_reactants(self.outputs.as_slice()),
        }
    }

    /// The items of the inputs, in order.
    pub fn get_input_items(&self) -> (r: Vec<Item>)
        ensures
            r@ == items_of(self.inputs@),
    {
        collect_items(self.inputs.as_slice())
    }

    /// The items of the outputs, in order.
    pub fn get_output_items(&self) -> (r: Vec<Item>)
        ensures
            r@ == items_of(self.outputs@),
    {
        collect_items(self.outputs.as_slice())
    }

    /// The items of the inputs followed by those of the outputs.
    pub fn get_involved_items(&self) -> (r: Vec<Item>)
        ensures
            r@ == items_of(self.inputs@) + items_of(self.outputs@),
    {
        let mut r = collect_items(self.inputs.as_slice());
        let mut o = collect_items(self.outputs.as_slice());
        r.append(&mut o);
        r
    }

    /// Some input is a resource that is picked by hand.
    pub fn uses_manual_resources(&self) -> (r: bool)
        ensures
            r == self.spec_uses_manual_resources(),
    {
        let mut i: usize = 0;
        while i < self.inputs.len()
            invariant
                i <= self.inputs@.len(),
                forall|k: int| 0 <= k < i ==> !self.inputs@[k].item.spec_picked_manually(),
            decreases self.inputs@.len() - i,
        {
            if self.inputs[i].item.is_resource_picked_manually() {
                return true;
            }
            i = i + 1;
        }
        false
    }

    /// The recipe runs in the building with id "blender".
    pub fn uses_a_blender(&self) -> (r: bool)
        ensures
            r == (self.building.spec_id() == "blender"@),
    {
        let blender: String = "blender".to_owned();
        *self.building.id_string() == blender
    }

    /// The recipe runs in the building with id "refinery".
    pub fn uses_a_refinery(&self) -> (r: bool)
        ensures
            r == (self.building.spec_id() == "refinery"@),
    {
        let refinery: String = "refinery".to_owned();
        *self.building.id_string() == refinery
    }

    /// Some input or output is of the item with id `item_id`.
    pub fn uses_item(&self, item_id: &String) -> (r: bool)
        ensures
            r == self.spec_uses_item(item_id@),
    {
        reactants_contain(self.inputs.as_slice(), item_id) || reactants_contain(
            self.outputs.as_slice(),
            item_id,
        )
    }

    /// The first input reactant of the given item, if any.
    pub fn input_reactant(&self, item: &Item) -> (r: Option<&Reactant>)
        ensures
            match r {
                Some(x) => reactants_use(self.inputs@, item.spec_id()) && x.item.spec_id()
                    == item.spec_id() && self.inputs@.contains(*x),
                None => !reactants_use(self.inputs@, item.spec_id()),
            },
    {
        find_reactant(self.inputs.as_slice(), item)
    }

    /// The first output reactant of the given item, if any.
    pub fn output_reactant(&self, item: &Item) -> (r: Option<&Reactant>)
        ensures
            match r {
                Some(x) => reactants_use(self.outputs@, item.spec_id()) && x.item.spec_id()
                    == item.spec_id() && self.outputs@.contains(*x),
                None => !reactants_use(self.outputs@, item.spec_id()),
            },
    {
        find_reactant(self.outputs.as_slice(), item)
    }
}

fn collect_items(v: &[Reactant]) -> (r: Vec<Item>)
    ensures
        r@ == items_of(v@),
{
    let mut r: Vec<Item> = Vec::new();
    let mut i: usize = 0;
    while i < v.len()
        invariant
            i <= v@.len(),
            r@ == items_of(v@.subrange(0, i as int)),
        decreases v@.len() - i,
    {
        r.push(v[i].item.duplicate());
        proof {
            assert(v@.subrange(0, i + 1) == v@.subrange(0, i as int).push(v@[i as int]));
        }
        i = i + 1;
    }
    assert(v@.subrange(0, v@.len() as int) == v@);
    r
}

/// Some reactant of `v` is of the item with id `id`.
pub fn reactants_contain(v: &[Reactant], id: &String) -> (r: bool)
    ensures
        r == reactants_use(v@, id@),
{
    let mut i: usize = 0;
    while i < v.len()
        invariant
            i <= v@.len(),
            forall|k: int| 0 <= k < i ==> v@[k].item.spec_id() != id@,
        decreases v@.len() - i,
    {
        if *v[i].item.id_string() == *id {
            return true;
        }
        i = i + 1;
    }
    false
}

fn find_reactant<'a>(v: &'a [Reactant], item: &Item) -> (r: Option<&'a Reactant>)
    ensures
        match r {
            Some(x) => reactants_use(v@, item.spec_id()) && x.item.spec_id() == item.spec_id()
                && v@.contains(*x),
            None => !reactants_use(v@, item.spec_id()),
        },
{
    let mut i: usize = 0;
    while i < v.len()
        invariant
            i <= v@.len(),
            forall|k: int| 0 <= k < i ==> v@[k].item.spec_id() != item.spec_id(),
        decreases v@.len() - i,
    {
        if v[i].item.same_id(item) {
            return Some(&v[i]);
        }
        i = i + 1;
    }
    None
}

} // verus!
