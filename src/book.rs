use vstd::prelude::*;

use crate::error::Error;
use crate::item::Item;
use crate::recipe::Recipe;
use crate::recipe_filter::RecipeFilter;

verus! {

/// The recipes of `s` that `f` admits, in order.
pub open spec fn matching(s: Seq<Recipe>, f: RecipeFilter) -> Seq<Recipe>
    decreases s.len(),
{
    if s.len() == 0 {
        Seq::empty()
    } else {
        let m = matching(s.drop_last(), f);
        if f.spec_matches(&s.last()) {
            m.push(s.last())
        } else {
            m
        }
    }
}

/// The first item of `items` with id `id`, if any.
pub open spec fn first_with_id(items: Seq<Item>, id: Seq<char>) -> Option<int> {
    if exists|k: int| 0 <= k < items.len() && items[k].spec_id() == id {
        Some(
            choose|k: int|
                0 <= k < items.len() && items[k].spec_id() == id && forall|j: int|
                    0 <= j < k ==> items[j].spec_id() != id,
        )
    } else {
        None
    }
}

/// Some item of `items` has the id `id`.
pub open spec fn has_id(items: Seq<Item>, id: Seq<char>) -> bool {
    exists|a: int| 0 <= a < items.len() && #[trigger] items[a].spec_id() == id
}

/// `item` is the item of some reactant of `rs`.
pub open spec fn item_of_some(rs: Seq<crate::reactant::Reactant>, item: Item) -> bool {
    exists|k: int| 0 <= k < rs.len() && (#[trigger] rs[k]).item == item
}

pub proof fn lemma_first_with_id(items: Seq<Item>, id: Seq<char>)
    ensures
        match first_with_id(items, id) {
            Some(j) => 0 <= j < items.len() && items[j].spec_id() == id && forall|b: int|
                0 <= b < j ==> items[b].spec_id() != id,
            None => forall|b: int| 0 <= b < items.len() ==> items[b].spec_id() != id,
        },
{
    if exists|k: int| 0 <= k < items.len() && items[k].spec_id() == id {
        let k0 = choose|k: int| 0 <= k < items.len() && items[k].spec_id() == id;
        assert(exists|k: int|
            0 <= k < items.len() && items[k].spec_id() == id && forall|j: int|
                0 <= j < k ==> items[j].spec_id() != id) by {
            lemma_least_with_id(items, id, k0);
        }
    }
}

proof fn lemma_least_with_id(items: Seq<Item>, id: Seq<char>, k0: int)
    requires
        0 <= k0 < items.len(),
        items[k0].spec_id() == id,
    ensures
        exists|k: int|
            0 <= k < items.len() && items[k].spec_id() == id && forall|j: int|
                0 <= j < k ==> items[j].spec_id() != id,
    decreases k0,
{
    if exists|j: int| 0 <= j < k0 && items[j].spec_id() == id {
        let j = choose|j: int| 0 <= j < k0 && items[j].spec_id() == id;
        lemma_least_with_id(items, id, j);
    } else {
        assert(forall|j: int| 0 <= j < k0 ==> items[j].spec_id() != id);
    }
}

/// Each item of `items` is the item of some reactant of `recipes`, no id comes twice,
/// and every reactant's item is there.
pub open spec fn involved_items(items: Seq<Item>, recipes: Seq<Recipe>) -> bool {
    &&& forall|a: int, b: int|
        0 <= a < b < items.len() ==> (#[trigger] items[a]).spec_id() != (#[trigger] items[b]).spec_id()
    &&& forall|a: int|
        0 <= a < items.len() ==> exists|r: int|
            0 <= r < recipes.len() && (item_of_some(recipes[r].inputs@, #[trigger] items[a])
                || item_of_some(recipes[r].outputs@, items[a]))
    &&& forall|r: int, k: int|
        0 <= r < recipes.len() && 0 <= k < recipes[r].inputs@.len() ==> has_id(
            items,
            (#[trigger] recipes[r].inputs@[k]).item.spec_id(),
        )
    &&& forall|r: int, k: int|
        0 <= r < recipes.len() && 0 <= k < recipes[r].outputs@.len() ==> has_id(
            items,
            (#[trigger] recipes[r].outputs@[k]).item.spec_id(),
        )
}

/// A catalog of items and recipes.
pub trait Book {
    /// The recipes this book shows, in order.
    spec fn recipe_list(&self) -> Seq<Recipe>;

    /// The items of the catalog.
    spec fn item_list(&self) -> Seq<Item>;

    spec fn book_wf(&self) -> bool;

    /// The number of recipes this book contains.
    fn number_of_recipes(&self) -> (n: usize)
        requires
            self.book_wf(),
        ensures
            n == self.recipe_list().len();

    /// A recipe from its index in this book.
    fn get_recipe(&self, recipe_index: usize) -> (r: Result<&Recipe, Error>)
        requires
            self.book_wf(),
        ensures
            match r {
                Ok(x) => recipe_index < self.recipe_list().len() && *x == self.recipe_list()[recipe_index as int],
                Err(e) => recipe_index >= self.recipe_list().len() && e == Error::InvalidRecipeIndex(recipe_index),
            };

    /// The items that the recipes of this book involve, each once.
    fn get_involved_items(&self) -> (r: Result<Vec<Item>, Error>)
        requires
            self.book_wf(),
        ensures
            match r {
                Ok(items) => involved_items(items@, self.recipe_list()),
                Err(_) => false,
            };

    /// The item of the catalog with id `item_id`.
    fn get_item_by_id(&self, item_id: &str) -> (r: Result<&Item, Error>)
        requires
            self.book_wf(),
        ensures
            match first_with_id(self.item_list(), item_id@) {
                Some(k) => r == Ok::<&Item, Error>(&self.item_list()[k]),
                None => r matches Err(Error::UnknownItem(s)) && s@ == item_id@,
            };
}

pub open spec fn distinct_item_ids(items: Seq<Item>) -> bool {
    forall|a: int, b: int|
        0 <= a < b < items.len() ==> (#[trigger] items[a]).spec_id() != (#[trigger] items[b]).spec_id()
}

/// Some item of `items` has the id of `item`.
pub(crate) fn contains_id(items: &Vec<Item>, item: &Item) -> (found: bool)
    ensures
        found == exists|b: int| 0 <= b < items@.len() && #[trigger] items@[b].spec_id() == item.spec_id(),
{
    let mut a: usize = 0;
    while a < items.len()
        invariant
            a <= items@.len(),
            forall|b: int| 0 <= b < a ==> (#[trigger] items@[b]).spec_id() != item.spec_id(),
        decreases items@.len() - a,
    {
        if items[a].same_id(item) {
            return true;
        }
        a = a + 1;
    }
    false
}

/// Adds the items of `rs` that are not there yet, in order.
pub(crate) fn add_items_of(items: Vec<Item>, rs: &[crate::reactant::Reactant]) -> (out: Vec<Item>)
    requires
        distinct_item_ids(items@),
    ensures
        distinct_item_ids(out@),
        out@.len() >= items@.len(),
        out@.subrange(0, items@.len() as int) == items@,
        forall|a: int| items@.len() <= a < out@.len() ==> item_of_some(rs@, #[trigger] out@[a]),
        forall|k: int| 0 <= k < rs@.len() ==> has_id(out@, (#[trigger] rs@[k]).item.spec_id()),
{
    let mut items = items;
    let ghost start = items@;
    let mut k: usize = 0;
    while k < rs.len()
        invariant
            k <= rs@.len(),
            distinct_item_ids(items@),
            items@.len() >= start.len(),
            items@.subrange(0, start.len() as int) == start,
            forall|a: int| start.len() <= a < items@.len() ==> item_of_some(rs@, #[trigger] items@[a]),
            forall|j: int| 0 <= j < k ==> has_id(items@, (#[trigger] rs@[j]).item.spec_id()),
        decreases rs@.len() - k,
    {
        let found = contains_id(&items, &rs[k].item);
        let ghost before = items@;
        if !found {
            items.push(rs[k].item.duplicate());
            proof {
                assert(items@.subrange(0, start.len() as int) == before.subrange(0, start.len() as int));
                assert(items@[before.len() as int] == rs@[k as int].item);
                assert forall|a: int| start.len() <= a < items@.len() implies item_of_some(rs@, #[trigger] items@[a]) by {
                    if a < before.len() {
                        assert(items@[a] == before[a]);
                    } else {
                        assert(rs@[k as int].item == items@[a]);
                    }
                }
                assert forall|j: int| 0 <= j <= k implies has_id(items@, (#[trigger] rs@[j]).item.spec_id()) by {
                    if j < k {
                        let a = choose|a: int| 0 <= a < before.len() && #[trigger] before[a].spec_id() == rs@[j].item.spec_id();
                        assert(items@[a] == before[a]);
                    } else {
                        assert(items@[before.len() as int].spec_id() == rs@[j].item.spec_id());
                    }
                }
            }
        }
        k = k + 1;
    }
    items
}

/// The items that the reactants of `recipes` involve, each once.
pub(crate) fn involved_of(Ghost(recipes): Ghost<Seq<Recipe>>, items: Vec<Item>, r: &Recipe) -> (out: Vec<Item>)
    requires
        involved_items(items@, recipes),
    ensures
        involved_items(out@, recipes.push(*r)),
{
    let ghost start = items@;
    let items = add_items_of(items, r.inputs());
    let ghost mid = items@;
    let items = add_items_of(items, r.outputs());
    proof {
        let all = recipes.push(*r);
        let n = recipes.len() as int;
        assert(all[n] == *r);
        assert forall|a: int| 0 <= a < items@.len() implies exists|q: int|
            0 <= q < all.len() && (item_of_some(all[q].inputs@, #[trigger] items@[a])
                || item_of_some(all[q].outputs@, items@[a])) by {
            if a < start.len() {
                assert(items@[a] == mid[a]);
                assert(mid[a] == start[a]);
                let q = choose|q: int|
                    0 <= q < recipes.len() && (item_of_some(recipes[q].inputs@, #[trigger] start[a])
                        || item_of_some(recipes[q].outputs@, start[a]));
                assert(all[q] == recipes[q]);
            } else if a < mid.len() {
                assert(items@[a] == mid[a]);
                assert(item_of_some(all[n].inputs@, items@[a]));
            } else {
                assert(item_of_some(all[n].outputs@, items@[a]));
            }
        }
        assert forall|q: int, k: int| 0 <= q < all.len() && 0 <= k < all[q].inputs@.len() implies has_id(
            items@, (#[trigger] all[q].inputs@[k]).item.spec_id()) by {
            let id = all[q].inputs@[k].item.spec_id();
            if q < n {
                assert(all[q] == recipes[q]);
                assert(has_id(start, recipes[q].inputs@[k].item.spec_id()));
            } else {
                assert(has_id(mid, r.inputs@[k].item.spec_id()));
            }
            let a = choose|a: int| 0 <= a < mid.len() && #[trigger] mid[a].spec_id() == id;
            if q < n {
                let a0 = choose|a: int| 0 <= a < start.len() && #[trigger] start[a].spec_id() == id;
                assert(mid[a0] == start[a0]);
                assert(items@[a0] == mid[a0]);
            } else {
                assert(items@[a] == mid[a]);
            }
        }
        assert forall|q: int, k: int| 0 <= q < all.len() && 0 <= k < all[q].outputs@.len() implies has_id(
            items@, (#[trigger] all[q].outputs@[k]).item.spec_id()) by {
            let id = all[q].outputs@[k].item.spec_id();
            if q < n {
                assert(all[q] == recipes[q]);
                assert(has_id(start, recipes[q].outputs@[k].item.spec_id()));
                let a0 = choose|a: int| 0 <= a < start.len() && #[trigger] start[a].spec_id() == id;
                assert(mid[a0] == start[a0]);
                assert(items@[a0] == mid[a0]);
            } else {
                assert(has_id(items@, r.outputs@[k].item.spec_id()));
            }
        }
    }
    items
}

/// The first item with id `item_id`.
pub(crate) fn find_item<'a>(items: &'a Vec<Item>, item_id: &str) -> (r: Result<&'a Item, Error>)
    ensures
        match first_with_id(items@, item_id@) {
            Some(k) => r == Ok::<&Item, Error>(&items@[k]),
            None => r matches Err(Error::UnknownItem(s)) && s@ == item_id@,
        },
{
    let id = crate::text::owned(item_id);
    let mut i: usize = 0;
    while i < items.len()
        invariant
            i <= items@.len(),
            id@ == item_id@,
            forall|j: int| 0 <= j < i ==> items@[j].spec_id() != item_id@,
        decreases items@.len() - i,
    {
        if *items[i].id_string() == id {
            let ghost k = choose|k: int|
                0 <= k < items@.len() && items@[k].spec_id() == item_id@ && forall|j: int|
                    0 <= j < k ==> items@[j].spec_id() != item_id@;
            proof {
                assert(0 <= i && i < items@.len() && items@[i as int].spec_id() == item_id@ && forall|j: int|
                    0 <= j < i ==> items@[j].spec_id() != item_id@);
                assert(k == i);
            }
            return Ok(&items[i]);
        }
        i = i + 1;
    }
    Err(Error::UnknownItem(id))
}

/// The whole catalog: its items and its recipes, by ascending complexity.
pub struct FullBook {
    pub items: Vec<Item>,
    pub recipes: Vec<Recipe>,
}

/// A view of a catalog that shows the recipes at some of its indices.
pub struct FilteredBook<'a> {
    pub full_book: &'a FullBook,
    pub filtered_recipe_indices: Vec<usize>,
}

/// A book whose recipes can be narrowed by a filter.
pub trait FilterableBook: Book {
    fn filter(&self, predicate: &RecipeFilter) -> (r: Result<FilteredBook<'_>, Error>)
        requires
            self.book_wf(),
        ensures
            match r {
                Ok(b) => b.book_wf() && b.recipe_list() == matching(self.recipe_list(), *predicate)
                    && b.item_list() == self.item_list(),
                Err(_) => false,
            };
}

impl FullBook {
    pub fn new(items: Vec<Item>, recipes: Vec<Recipe>) -> (r: Self)
        ensures
            r.item_list() == items@,
            r.recipe_list() == recipes@,
    {
        FullBook { items, recipes }
    }

    pub fn items(&self) -> (r: &Vec<Item>)
        ensures
            r@ == self.item_list(),
    {
        &self.items
    }

    pub fn recipes(&self) -> (r: &Vec<Recipe>)
        ensures
            r@ == self.recipe_list(),
    {
        &self.recipes
    }
}

impl Book for FullBook {
    open spec fn recipe_list(&self) -> Seq<Recipe> {
        self.recipes@
    }

    open spec fn item_list(&self) -> Seq<Item> {
        self.items@
    }

    /// No two items share an id.
    open spec fn book_wf(&self) -> bool {
        distinct_item_ids(self.items@)
    }

    fn number_of_recipes(&self) -> (n: usize) {
        self.recipes.len()
    }

    fn get_recipe(&self, recipe_index: usize) -> (r: Result<&Recipe, Error>) {
        if recipe_index < self.recipes.len() {
            Ok(&self.recipes[recipe_index])
        } else {
            Err(Error::InvalidRecipeIndex(recipe_index))
        }
    }

    fn get_involved_items(&self) -> (r: Result<Vec<Item>, Error>) {
        let mut items: Vec<Item> = Vec::new();
        let mut i: usize = 0;
        while i < self.recipes.len()
            invariant
                i <= self.recipes@.len(),
                involved_items(items@, self.recipes@.subrange(0, i as int)),
            decreases self.recipes@.len() - i,
        {
            items = involved_of(Ghost(self.recipes@.subrange(0, i as int)), items, &self.recipes[i]);
            assert(self.recipes@.subrange(0, i as int).push(self.recipes@[i as int]) == self.recipes@.subrange(0, i + 1));
            i = i + 1;
        }
        assert(self.recipes@.subrange(0, self.recipes@.len() as int) == self.recipes@);
        Ok(items)
    }

    fn get_item_by_id(&self, item_id: &str) -> (r: Result<&Item, Error>) {
        find_item(&self.items, item_id)
    }
}

impl FilterableBook for FullBook {
    fn filter(&self, predicate: &RecipeFilter) -> (r: Result<FilteredBook<'_>, Error>) {
        let mut indices: Vec<usize> = Vec::new();
        let mut i: usize = 0;
        while i < self.recipes.len()
            invariant
                i <= self.recipes@.len(),
                forall|j: int| 0 <= j < indices@.len() ==> #[trigger] indices@[j] < i,
                indices@.map_values(|k: usize| self.recipes@[k as int]) == matching(
                    self.recipes@.subrange(0, i as int),
                    *predicate,
                ),
            decreases self.recipes@.len() - i,
        {
            let ghost before = indices@;
            proof {
                let s = self.recipes@.subrange(0, i + 1);
                assert(s.drop_last() == self.recipes@.subrange(0, i as int));
                assert(s.last() == self.recipes@[i as int]);
            }
            if predicate.matches(&self.recipes[i]) {
                indices.push(i);
                assert(indices@.map_values(|k: usize| self.recipes@[k as int]) =~= before.map_values(
                    |k: usize| self.recipes@[k as int],
                ).push(self.recipes@[i as int]));
            }
            i = i + 1;
        }
        assert(self.recipes@.subrange(0, self.recipes@.len() as int) == self.recipes@);
        Ok(FilteredBook { full_book: self, filtered_recipe_indices: indices })
    }
}

impl<'a> FilteredBook<'a> {
    pub fn new(full_book: &'a FullBook, filtered_recipe_indices: Vec<usize>) -> (r: Self)
        ensures
            r.full_book == full_book,
            r.filtered_recipe_indices@ == filtered_recipe_indices@,
    {
        FilteredBook { full_book, filtered_recipe_indices }
    }
}

impl<'a> Book for FilteredBook<'a> {
    open spec fn recipe_list(&self) -> Seq<Recipe> {
        self.filtered_recipe_indices@.map_values(|k: usize| self.full_book.recipes@[k as int])
    }

    open spec fn item_list(&self) -> Seq<Item> {
        self.full_book.items@
    }

    open spec fn book_wf(&self) -> bool {
        forall|j: int|
            0 <= j < self.filtered_recipe_indices@.len() ==> #[trigger] self.filtered_recipe_indices@[j]
                < self.full_book.recipes@.len()
    }

    fn number_of_recipes(&self) -> (n: usize) {
        self.filtered_recipe_indices.len()
    }

    fn get_recipe(&self, recipe_index: usize) -> (r: Result<&Recipe, Error>) {
        if recipe_index < self.filtered_recipe_indices.len() {
            let k = self.filtered_recipe_indices[recipe_index];
            Ok(&self.full_book.recipes[k])
        } else {
            Err(Error::InvalidRecipeIndex(recipe_index))
        }
    }

    fn get_involved_items(&self) -> (r: Result<Vec<Item>, Error>) {
        let mut items: Vec<Item> = Vec::new();
        let mut i: usize = 0;
        while i < self.filtered_recipe_indices.len()
            invariant
                self.book_wf(),
                i <= self.filtered_recipe_indices@.len(),
                involved_items(items@, self.recipe_list().subrange(0, i as int)),
            decreases self.filtered_recipe_indices@.len() - i,
        {
            let k = self.filtered_recipe_indices[i];
            items = involved_of(Ghost(self.recipe_list().subrange(0, i as int)), items, &self.full_book.recipes[k]);
            assert(self.recipe_list().subrange(0, i as int).push(self.recipe_list()[i as int]) == self.recipe_list().subrange(0, i + 1));
            i = i + 1;
        }
        assert(self.recipe_list().subrange(0, self.recipe_list().len() as int) == self.recipe_list());
        Ok(items)
    }

    fn get_item_by_id(&self, item_id: &str) -> (r: Result<&Item, Error>) {
        find_item(&self.full_book.items, item_id)
    }
}

impl<'a> FilterableBook for FilteredBook<'a> {
    fn filter(&self, predicate: &RecipeFilter) -> (r: Result<FilteredBook<'_>, Error>) {
        let mut indices: Vec<usize> = Vec::new();
        let mut i: usize = 0;
        let ghost all = self.recipe_list();
        while i < self.filtered_recipe_indices.len()
            invariant
                self.book_wf(),
                all == self.recipe_list(),
                i <= self.filtered_recipe_indices@.len(),
                forall|j: int| 0 <= j < indices@.len() ==> #[trigger] indices@[j] < self.full_book.recipes@.len(),
                indices@.map_values(|k: usize| self.full_book.recipes@[k as int]) == matching(
                    all.subrange(0, i as int),
                    *predicate,
                ),
            decreases self.filtered_recipe_indices@.len() - i,
        {
            let ghost before = indices@;
            let k = self.filtered_recipe_indices[i];
            proof {
                let s = all.subrange(0, i + 1);
                assert(s.drop_last() == all.subrange(0, i as int));
                assert(s.last() == self.full_book.recipes@[k as int]);
            }
            if predicate.matches(&self.full_book.recipes[k]) {
                indices.push(k);
                assert(indices@.map_values(|k: usize| self.full_book.recipes@[k as int]) =~= before.map_values(
                    |k: usize| self.full_book.recipes@[k as int],
                ).push(self.full_book.recipes@[k as int]));
            }
            i = i + 1;
        }
        assert(all.subrange(0, all.len() as int) == all);
        Ok(FilteredBook { full_book: self.full_book, filtered_recipe_indices: indices })
    }
}

} // verus!
