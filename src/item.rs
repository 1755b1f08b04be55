use vstd::prelude::*;

use crate::building::Extractor;

verus! {

/// How many nodes of each purity a resource has on the map.
#[derive(Clone, Copy, Debug, PartialEq, Eq)]
pub struct Nodes {
    pub impure: u32,
    pub normal: u32,
    pub pure: u32,
}

#[derive(Clone, Debug)]
pub struct Resource {
    pub id: String,
    pub extractor: Extractor,
    pub nodes: Option<Nodes>,
}

#[derive(Clone, Debug)]
pub struct Product {
    pub id: String,
}

/// An item of the catalog; its identity is its id.
#[derive(Clone, Debug)]
pub enum Item {
    Resource(Resource),
    Product(Product),
}

impl Nodes {
    pub fn new(impure: u32, normal: u32, pure: u32) -> (r: Self)
        ensures
            r.impure == impure,
            r.normal == normal,
            r.pure == pure,
    {
        Nodes { impure, normal, pure }
    }

    /// Yield per minute: 300 per impure node, 600 per normal one, 780 per pure one.
    pub open spec fn spec_max_quantity_per_minute(&self) -> nat {
        (self.impure * 300 + self.normal * 600 + self.pure * 780) as nat
    }

    pub fn max_quantity_per_minute(&self) -> (r: u64)
        ensures
            r == self.spec_max_quantity_per_minute(),
    {
        self.impure as u64 * 300 + self.normal as u64 * 600 + self.pure as u64 * 780
    }
}

impl Resource {
    pub fn new(id: String, extractor: Extractor, nodes: Option<Nodes>) -> (r: Self)
        ensures
            r.id == id,
            r.extractor == extractor,
            r.nodes == nodes,
    {
        Resource { id, extractor, nodes }
    }

    pub fn nodes(&self) -> (r: Option<&Nodes>)
        ensures
            r == match self.nodes {
                Some(n) => Some(&n),
                None => None::<&Nodes>,
            },
    {
        self.nodes.as_ref()
    }

    /// The extraction cap; none when the resource has no known nodes.
    pub open spec fn spec_max_quantity_per_minute(&self) -> Option<nat> {
        match self.nodes {
            Some(n) => Some(n.spec_max_quantity_per_minute()),
            None => None,
        }
    }

    pub fn max_quantity_per_minute(&self) -> (r: Option<u64>)
        ensures
            match r {
                Some(q) => self.spec_max_quantity_per_minute() == Some(q as nat),
                None => self.spec_max_quantity_per_minute() is None,
            },
    {
        match &self.nodes {
            Some(n) => Some(n.max_quantity_per_minute()),
            None => None,
        }
    }

    pub fn duplicate(&self) -> (r: Self)
        ensures
            r == *self,
    {
        Resource { id: self.id.clone(), extractor: self.extractor.duplicate(), nodes: self.nodes }
    }
}

impl Product {
    pub fn new(id: String) -> (r: Self)
        ensures
            r.id == id,
    {
        Product { id }
    }
}

impl Item {
    pub open spec fn spec_id(&self) -> Seq<char> {
        match self {
            Item::Resource(r) => r.id@,
            Item::Product(p) => p.id@,
        }
    }

    /// The extraction cap of a resource with known nodes, 0 otherwise.
    pub open spec fn spec_cap(&self) -> nat {
        match self {
            Item::Resource(r) => match r.spec_max_quantity_per_minute() {
                Some(q) => q,
                None => 0,
            },
            Item::Product(_) => 0,
        }
    }

    pub open spec fn spec_picked_manually(&self) -> bool {
        match self {
            Item::Resource(r) => r.extractor.spec_is_manual(),
            Item::Product(_) => false,
        }
    }

    pub fn as_resource(&self) -> (r: Option<&Resource>)
        ensures
            match self {
                Item::Resource(res) => r == Some(res),
                Item::Product(_) => r is None,
            },
    {
        match self {
            Item::Resource(r) => Some(r),
            Item::Product(_) => None,
        }
    }

    pub fn is_resource_picked_manually(&self) -> (r: bool)
        ensures
            r == self.spec_picked_manually(),
    {
        match self {
            Item::Resource(r) => r.extractor.is_manual(),
            Item::Product(_) => false,
        }
    }

    pub fn id(&self) -> (r: &str)
        ensures
            r@ == self.spec_id(),
    {
        match self {
            Item::Resource(r) => r.id.as_str(),
            Item::Product(p) => p.id.as_str(),
        }
    }

    pub fn id_string(&self) -> (r: &String)
        ensures
            r@ == self.spec_id(),
    {
        match self {
            Item::Resource(r) => &r.id,
            Item::Product(p) => &p.id,
        }
    }

    /// Same id; the variant is not looked at, as ids are unique across items.
    pub fn same_id(&self, other: &Item) -> (r: bool)
        ensures
            r == (self.spec_id() == other.spec_id()),
    {
        *self.id_string() == *other.id_string()
    }

    /// The extraction cap of a resource with known nodes, 0 otherwise.
    pub fn cap(&self) -> (r: u64)
        ensures
            r == self.spec_cap(),
    {
        match self {
            Item::Resource(r) => match r.max_quantity_per_minute() {
                Some(q) => q,
                None => 0,
            },
            Item::Product(_) => 0,
        }
    }

    pub fn duplicate(&self) -> (r: Self)
        ensures
            r == *self,
    {
        match self {
            Item::Resource(r) => Item::Resource(r.duplicate()),
            Item::Product(p) => Item::Product(Product { id: p.id.clone() }),
        }
    }
}

} // verus!
