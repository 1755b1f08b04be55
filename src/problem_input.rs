use vstd::prelude::*;

use crate::recipe_filter::RecipeFilter;

verus! {

/// What to plan for: items per minute to deliver, items per minute already at hand,
/// whether resources are weighed by their abundance, and which recipes may be used.
#[derive(Debug)]
pub struct ProblemInput {
    pub target_items: Vec<(String, u32)>,
    pub available_items: Vec<(String, u32)>,
    pub use_abundances: bool,
    pub filter: RecipeFilter,
}

/// The amount of the last entry of `entries` whose key is `id`, if any: a later entry
/// for the same item replaces an earlier one.
pub open spec fn entry_for(entries: Seq<(String, u32)>, id: Seq<char>) -> Option<u32>
    decreases entries.len(),
{
    if entries.len() == 0 {
        None
    } else if entries.last().0@ == id {
        Some(entries.last().1)
    } else {
        entry_for(entries.drop_last(), id)
    }
}

impl Default for ProblemInput {
    fn default() -> (r: Self)
        ensures
            r.target_items@.len() == 0,
            r.available_items@.len() == 0,
            r.use_abundances,
            r.filter == RecipeFilter::NotManual,
    {
        ProblemInput {
            target_items: Vec::new(),
            available_items: Vec::new(),
            use_abundances: true,
            filter: RecipeFilter::NotManual,
        }
    }
}

impl ProblemInput {
    pub fn target_items(&self) -> (r: &Vec<(String, u32)>)
        ensures
            r@ == self.target_items@,
    {
        &self.target_items
    }

    pub fn available_items(&self) -> (r: &Vec<(String, u32)>)
        ensures
            r@ == self.available_items@,
    {
        &self.available_items
    }

    pub fn filter(&self) -> (r: &RecipeFilter)
        ensures
            *r == self.filter,
    {
        &self.filter
    }
}

} // verus!
