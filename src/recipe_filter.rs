use vstd::prelude::*;

use crate::error::Error;
use crate::recipe::Recipe;
use crate::text::{
    eq_ignore_ascii_case, equal_ignoring_ascii_case, owned, split_commas, split_on_commas,
    strip_prefix,
};

verus! {

/// A predicate over recipes, as a tree of primitive tests and combinators.
#[derive(Debug)]
pub enum RecipeFilter {
    NotAlternate,
    NoBlender,
    NoRefinery,
    NotManual,
    NotNamed(String),
    NotUsing(String),
    AllRecipes,
    NoneOf(Vec<RecipeFilter>),
    AllOf(Vec<RecipeFilter>),
    AnyOf(Vec<RecipeFilter>),
    Not(Box<RecipeFilter>),
}

impl RecipeFilter {
    /// Whether the filter admits `r`.
    pub open spec fn spec_matches(&self, r: &Recipe) -> bool
        decreases self,
    {
        match self {
            RecipeFilter::NotAlternate => !r.alternate,
            RecipeFilter::NoBlender => r.building.spec_id() != "blender"@,
            RecipeFilter::NoRefinery => r.building.spec_id() != "refinery"@,
            RecipeFilter::NotManual => !r.spec_uses_manual_resources(),
            RecipeFilter::NotNamed(name) => !equal_ignoring_ascii_case(name@, r.id@),
            RecipeFilter::NotUsing(id) => !r.spec_uses_item(id@),
            RecipeFilter::AllRecipes => true,
            RecipeFilter::NoneOf(fs) => forall|i: int|
                0 <= i < fs@.len() ==> !(#[trigger] fs@[i]).spec_matches(r),
            RecipeFilter::AllOf(fs) => forall|i: int|
                0 <= i < fs@.len() ==> (#[trigger] fs@[i]).spec_matches(r),
            RecipeFilter::AnyOf(fs) => exists|i: int|
                0 <= i < fs@.len() && (#[trigger] fs@[i]).spec_matches(r),
            RecipeFilter::Not(f) => !f.spec_matches(r),
        }
    }

    pub fn matches(&self, recipe: &Recipe) -> (r: bool)
        ensures
            r == self.spec_matches(recipe),
        decreases self,
    {
        match self {
            RecipeFilter::NotAlternate => !recipe.alternate(),
            RecipeFilter::NoBlender => !recipe.uses_a_blender(),
            RecipeFilter::NoRefinery => !recipe.uses_a_refinery(),
            RecipeFilter::NotManual => !recipe.uses_manual_resources(),
            RecipeFilter::NotNamed(name) => !eq_ignore_ascii_case(name.as_str(), recipe.id()),
            RecipeFilter::NotUsing(item_id) => !recipe.uses_item(item_id),
            RecipeFilter::AllRecipes => true,
            RecipeFilter::NoneOf(filters) => {
                let mut i: usize = 0;
                while i < filters.len()
                    invariant
                        *self == RecipeFilter::NoneOf(*filters),
                        i <= filters@.len(),
                        forall|k: int| 0 <= k < i ==> !(#[trigger] filters@[k]).spec_matches(recipe),
                    decreases filters@.len() - i,
                {
                    proof {
                        vstd::std_specs::vec::axiom_vec_index_decreases(*filters, i as int);
                        assert(decreases_to!(self => self->NoneOf_0));
                        assert(decreases_to!(*filters => filters@));
                        assert(decreases_to!(filters@ => filters@[i as int]));
                    }
                    if filters[i].matches(recipe) {
                        assert(filters@[i as int].spec_matches(recipe));
                        return false;
                    }
                    i = i + 1;
                }
                true
            },
            RecipeFilter::AllOf(filters) => {
                let mut i: usize = 0;
                while i < filters.len()
                    invariant
                        *self == RecipeFilter::AllOf(*filters),
                        i <= filters@.len(),
                        forall|k: int| 0 <= k < i ==> (#[trigger] filters@[k]).spec_matches(recipe),
                    decreases filters@.len() - i,
                {
                    proof {
                        vstd::std_specs::vec::axiom_vec_index_decreases(*filters, i as int);
                        assert(decreases_to!(self => self->AllOf_0));
                        assert(decreases_to!(*filters => filters@));
                        assert(decreases_to!(filters@ => filters@[i as int]));
                    }
                    if !filters[i].matches(recipe) {
                        assert(!filters@[i as int].spec_matches(recipe));
                        return false;
                    }
                    i = i + 1;
                }
                true
            },
            RecipeFilter::AnyOf(filters) => {
                let mut i: usize = 0;
                while i < filters.len()
                    invariant
                        *self == RecipeFilter::AnyOf(*filters),
                        i <= filters@.len(),
                        forall|k: int| 0 <= k < i ==> !(#[trigger] filters@[k]).spec_matches(recipe),
                    decreases filters@.len() - i,
                {
                    proof {
                        vstd::std_specs::vec::axiom_vec_index_decreases(*filters, i as int);
                        assert(decreases_to!(self => self->AnyOf_0));
                        assert(decreases_to!(*filters => filters@));
                        assert(decreases_to!(filters@ => filters@[i as int]));
                    }
                    if filters[i].matches(recipe) {
                        assert(filters@[i as int].spec_matches(recipe));
                        return true;
                    }
                    i = i + 1;
                }
                false
            },
            RecipeFilter::Not(filter) => !filter.matches(recipe),
        }
    }

    /// The filter's name as the request file writes it.
    pub fn name(&self) -> (r: &'static str)
        ensures
            r@ == match self {
                RecipeFilter::NotAlternate => "not-alternate"@,
                RecipeFilter::NoBlender => "no-blender"@,
                RecipeFilter::NoRefinery => "no-refinery"@,
                RecipeFilter::NotManual => "not-manual"@,
                RecipeFilter::AllRecipes => "all-recipes"@,
                RecipeFilter::NoneOf(_) => "none-of()"@,
                RecipeFilter::AllOf(_) => "all-of"@,
                RecipeFilter::AnyOf(_) => "any-of"@,
                RecipeFilter::Not(_) => "not"@,
                RecipeFilter::NotNamed(_) => "not-named"@,
                RecipeFilter::NotUsing(_) => "not-using"@,
            },
    {
        match self {
            RecipeFilter::NotAlternate => "not-alternate",
            RecipeFilter::NoBlender => "no-blender",
            RecipeFilter::NoRefinery => "no-refinery",
            RecipeFilter::NotManual => "not-manual",
            RecipeFilter::AllRecipes => "all-recipes",
            RecipeFilter::NoneOf(_) => "none-of()",
            RecipeFilter::AllOf(_) => "all-of",
            RecipeFilter::AnyOf(_) => "any-of",
            RecipeFilter::Not(_) => "not",
            RecipeFilter::NotNamed(_) => "not-named",
            RecipeFilter::NotUsing(_) => "not-using",
        }
    }

    /// Reads one token of the filter syntax.
    pub fn parse_token(f: &str) -> (r: Result<RecipeFilter, Error>)
        ensures
            token_reads_as(f@, r),
    {
        proof {
            reveal_strlit("wo_");
            reveal_strlit("nu_");
        }
        let s = owned(f);
        if s == owned("not-alternate") {
            Ok(RecipeFilter::NotAlternate)
        } else if s == owned("not-manual") {
            Ok(RecipeFilter::NotManual)
        } else if s == owned("no-refinery") {
            Ok(RecipeFilter::NoRefinery)
        } else if s == owned("no-blender") {
            Ok(RecipeFilter::NoBlender)
        } else if s == owned("all-recipes") {
            Ok(RecipeFilter::AllRecipes)
        } else {
            match strip_prefix(f, "wo_") {
                Some(name) => Ok(RecipeFilter::NotNamed(owned(name))),
                None => match strip_prefix(f, "nu_") {
                    Some(item_id) => Ok(RecipeFilter::NotUsing(owned(item_id))),
                    None => Err(Error::FilterParsingFailed(s)),
                },
            }
        }
    }
}

/// `r` is what the token `f` of the filter syntax reads as.
pub open spec fn token_reads_as(f: Seq<char>, r: Result<RecipeFilter, Error>) -> bool {
    if f == "not-alternate"@ {
        r == Ok::<RecipeFilter, Error>(RecipeFilter::NotAlternate)
    } else if f == "not-manual"@ {
        r == Ok::<RecipeFilter, Error>(RecipeFilter::NotManual)
    } else if f == "no-refinery"@ {
        r == Ok::<RecipeFilter, Error>(RecipeFilter::NoRefinery)
    } else if f == "no-blender"@ {
        r == Ok::<RecipeFilter, Error>(RecipeFilter::NoBlender)
    } else if f == "all-recipes"@ {
        r == Ok::<RecipeFilter, Error>(RecipeFilter::AllRecipes)
    } else if "wo_"@.is_prefix_of(f) {
        r matches Ok(RecipeFilter::NotNamed(n)) && n@ == f.skip(3)
    } else if "nu_"@.is_prefix_of(f) {
        r matches Ok(RecipeFilter::NotUsing(n)) && n@ == f.skip(3)
    } else {
        r matches Err(Error::FilterParsingFailed(m)) && m@ == f
    }
}

/// `f` is one token of the filter syntax.
pub open spec fn is_filter_token(f: Seq<char>) -> bool {
    ||| f == "not-alternate"@
    ||| f == "not-manual"@
    ||| f == "no-refinery"@
    ||| f == "no-blender"@
    ||| f == "all-recipes"@
    ||| "wo_"@.is_prefix_of(f)
    ||| "nu_"@.is_prefix_of(f)
}

/// Reads a comma-separated list of tokens as the conjunction of their filters;
/// the first piece that is no token is the error.
pub fn parse_filter(filter_str: &str) -> (r: Result<RecipeFilter, Error>)
    ensures
        ({
            let pieces = split_commas(filter_str@);
            match r {
                Ok(f) => {
                    &&& forall|k: int| 0 <= k < pieces.len() ==> is_filter_token(#[trigger] pieces[k])
                    &&& f matches RecipeFilter::AllOf(fs) && fs@.len() == pieces.len() && forall|
                        k: int,
                    |
                        0 <= k < pieces.len() ==> token_reads_as(
                            #[trigger] pieces[k],
                            Ok(fs@[k]),
                        )
                }
                Err(e) => exists|k: int|
                    0 <= k < pieces.len() && !is_filter_token(#[trigger] pieces[k]) && (forall|
                        j: int,
                    |
                        0 <= j < k ==> is_filter_token(#[trigger] pieces[j])) && token_reads_as(
                        pieces[k],
                        Err(e),
                    ),
            }
        }),
{
    let pieces = split_on_commas(filter_str);
    let ghost spieces = split_commas(filter_str@);
    let mut filters: Vec<RecipeFilter> = Vec::new();
    let mut i: usize = 0;
    while i < pieces.len()
        invariant
            i <= pieces@.len(),
            pieces@.map_values(|p: &str| p@) == spieces,
            spieces == split_commas(filter_str@),
            filters@.len() == i,
            forall|k: int| 0 <= k < i ==> is_filter_token(#[trigger] spieces[k]),
            forall|k: int| 0 <= k < i ==> token_reads_as(#[trigger] spieces[k], Ok(filters@[k])),
        decreases pieces@.len() - i,
    {
        proof {
            reveal_strlit("wo_");
            reveal_strlit("nu_");
        }
        assert(spieces[i as int] == pieces@[i as int]@);
        match RecipeFilter::parse_token(pieces[i]) {
            Ok(f) => {
                filters.push(f);
            },
            Err(e) => {
                assert(!is_filter_token(spieces[i as int]));
                return Err(e);
            },
        }
        i = i + 1;
    }
    Ok(RecipeFilter::AllOf(filters))
}

/// An empty conjunction admits every recipe.
pub proof fn lemma_all_of_nothing_accepts(fs: Vec<RecipeFilter>, r: Recipe)
    requires
        fs@.len() == 0,
    ensures
        RecipeFilter::AllOf(fs).spec_matches(&r),
{
}

/// An empty disjunction admits no recipe.
pub proof fn lemma_any_of_nothing_rejects(fs: Vec<RecipeFilter>, r: Recipe)
    requires
        fs@.len() == 0,
    ensures
        !RecipeFilter::AnyOf(fs).spec_matches(&r),
{
}

/// An empty exclusion admits every recipe.
pub proof fn lemma_none_of_nothing_accepts(fs: Vec<RecipeFilter>, r: Recipe)
    requires
        fs@.len() == 0,
    ensures
        RecipeFilter::NoneOf(fs).spec_matches(&r),
{
}

/// Negating a filter twice admits the same recipes as the filter.
pub proof fn lemma_double_negation(f: RecipeFilter, r: Recipe)
    ensures
        RecipeFilter::Not(Box::new(RecipeFilter::Not(Box::new(f)))).spec_matches(&r)
            == f.spec_matches(&r),
{
    let inner = RecipeFilter::Not(Box::new(f));
    assert(inner.spec_matches(&r) == !f.spec_matches(&r));
}

} // verus!
