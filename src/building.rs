use vstd::prelude::*;

verus! {

/// A building that extracts a resource from a node.
#[derive(Clone, Debug)]
pub struct Extractor {
    pub id: String,
    pub kind: String,
    pub power_usage: i32,
    pub normal_extraction_rate: u32,
}

/// A building that runs recipes on items.
#[derive(Clone, Debug)]
pub struct Processor {
    pub id: String,
    pub kind: String,
    pub power_usage: i32,
}

#[derive(Clone, Debug)]
pub enum Building {
    Extractor(Extractor),
    Processor(Processor),
}

impl Extractor {
    pub fn new(id: String, kind: String, power_usage: i32, normal_extraction_rate: u32) -> (r: Self)
        ensures
            r.id == id,
            r.kind == kind,
            r.power_usage == power_usage,
            r.normal_extraction_rate == normal_extraction_rate,
    {
        Extractor { id, kind, power_usage, normal_extraction_rate }
    }

    /// Manual extractors are the ones of kind "manual".
    pub open spec fn spec_is_manual(&self) -> bool {
        self.kind@ == "manual"@
    }

    pub fn is_manual(&self) -> (r: bool)
        ensures
            r == self.spec_is_manual(),
    {
        let manual: String = "manual".to_owned();
        self.kind == manual
    }

    pub fn duplicate(&self) -> (r: Self)
        ensures
            r == *self,
    {
        Extractor {
            id: self.id.clone(),
            kind: self.kind.clone(),
            power_usage: self.power_usage,
            normal_extraction_rate: self.normal_extraction_rate,
        }
    }
}

impl Processor {
    pub fn new(id: String, kind: String, power_usage: i32) -> (r: Self)
        ensures
            r.id == id,
            r.kind == kind,
            r.power_usage == power_usage,
    {
        Processor { id, kind, power_usage }
    }

    pub fn duplicate(&self) -> (r: Self)
        ensures
            r == *self,
    {
        Processor { id: self.id.clone(), kind: self.kind.clone(), power_usage: self.power_usage }
    }
}

impl Building {
    pub open spec fn spec_id(&self) -> Seq<char> {
        match self {
            Building::Extractor(e) => e.id@,
            Building::Processor(p) => p.id@,
        }
    }

    pub open spec fn spec_power_usage(&self) -> i32 {
        match self {
            Building::Extractor(e) => e.power_usage,
            Building::Processor(p) => p.power_usage,
        }
    }

    pub fn power_usage(&self) -> (r: i32)
        ensures
            r == self.spec_power_usage(),
    {
        match self {
            Building::Extractor(e) => e.power_usage,
            Building::Processor(p) => p.power_usage,
        }
    }

    pub fn id(&self) -> (r: &str)
        ensures
            r@ == self.spec_id(),
    {
        match self {
            Building::Extractor(e) => e.id.as_str(),
            Building::Processor(p) => p.id.as_str(),
        }
    }

    pub fn id_string(&self) -> (r: &String)
        ensures
            r@ == self.spec_id(),
    {
        match self {
            Building::Extractor(e) => &e.id,
            Building::Processor(p) => &p.id,
        }
    }

    pub fn duplicate(&self) -> (r: Self)
        ensures
            r == *self,
    {
        match self {
            Building::Extractor(e) => Building::Extractor(e.duplicate()),
            Building::Processor(p) => Building::Processor(p.duplicate()),
        }
    }
}

} // verus!
