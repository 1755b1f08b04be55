use vstd::prelude::*;

use crate::book::{
    add_items_of, contains_id, distinct_item_ids, first_with_id, has_id, involved_items, item_of_some, Book,
};
use crate::error::Error;
use crate::item::Item;
use crate::problem_input::ProblemInput;
use crate::reactant::Reactant;
use crate::recipe::Recipe;

verus! {

/// The weight of resources without a known cap, against the capped ones.
pub const UNCAPPED_DIVISOR: u64 = 1_000_000_000;

/// How an item's balance is bounded.
#[derive(Clone, Copy, Debug, PartialEq, Eq)]
pub enum Relation {
    AtMost,
    AtLeast,
    Exactly,
}

/// The balance of `items[item]` stands in `relation` to `bound` items per minute.
#[derive(Clone, Copy, Debug, PartialEq, Eq)]
pub struct Constraint {
    pub item: usize,
    pub relation: Relation,
    pub bound: i64,
}

/// The objective loses the balance of `items[item]` times `numerator / denominator`.
#[derive(Clone, Copy, Debug, PartialEq, Eq)]
pub struct ObjectiveTerm {
    pub item: usize,
    pub numerator: u128,
    pub denominator: u64,
}

/// A linear program over the runs per minute of each recipe. The balance of item `i`
/// is `sum over r of coefficients[i][r] * x[r]` plus the amount at hand `stock[i]`; the objective to minimise
/// is `sum over r of x[r]` less each term's weighted balance.
pub struct Problem {
    pub recipes: Vec<Recipe>,
    pub items: Vec<Item>,
    pub coefficients: Vec<Vec<i128>>,
    pub stock: Vec<Option<u32>>,
    pub targets: Vec<Option<u32>>,
    pub constraints: Vec<Constraint>,
    pub objective: Vec<ObjectiveTerm>,
}

/// Quantity of the item with id `id` over the reactants of `rs`.
pub open spec fn quantity_of(rs: Seq<Reactant>, id: Seq<char>) -> int
    decreases rs.len(),
{
    if rs.len() == 0 {
        0
    } else {
        quantity_of(rs.drop_last(), id) + if rs.last().item.spec_id() == id {
            rs.last().quantity as int
        } else {
            0
        }
    }
}

/// What one run of `r` adds to the stock of the item with id `id`.
pub open spec fn net_quantity(r: Recipe, id: Seq<char>) -> int {
    quantity_of(r.outputs@, id) - quantity_of(r.inputs@, id)
}

/// The amount that `entries` give for the item with id `id`, 0 if none.
pub open spec fn amount_for(entries: Seq<(Item, u32)>, id: Seq<char>) -> Option<u32>
    decreases entries.len(),
{
    if entries.len() == 0 {
        None
    } else if entries[0].0.spec_id() == id {
        Some(entries[0].1)
    } else {
        amount_for(entries.skip(1), id)
    }
}

/// The bounds on the balance of item number `i`.
pub open spec fn item_constraints(i: int, item: Item, target: Option<u32>) -> Seq<Constraint> {
    match item {
        Item::Resource(_) => if item.spec_cap() > 0 {
            seq![
                Constraint { item: i as usize, relation: Relation::AtMost, bound: 0 },
                Constraint { item: i as usize, relation: Relation::AtLeast, bound: -(item.spec_cap() as int) as i64 },
            ]
        } else {
            seq![Constraint { item: i as usize, relation: Relation::AtMost, bound: 0 }]
        },
        Item::Product(_) => match target {
            Some(t) => if t > 0 {
                seq![Constraint { item: i as usize, relation: Relation::Exactly, bound: t as i64 }]
            } else {
                seq![Constraint { item: i as usize, relation: Relation::AtLeast, bound: 0 }]
            },
            None => seq![Constraint { item: i as usize, relation: Relation::AtLeast, bound: 0 }],
        },
    }
}

pub open spec fn all_constraints(items: Seq<Item>, targets: Seq<Option<u32>>) -> Seq<Constraint>
    decreases items.len(),
{
    if items.len() == 0 {
        Seq::empty()
    } else {
        let n = items.len() - 1;
        all_constraints(items.drop_last(), targets) + item_constraints(n, items[n], targets[n])
    }
}

/// The sum of the caps of the items.
pub open spec fn total_cap(items: Seq<Item>) -> nat
    decreases items.len(),
{
    if items.len() == 0 {
        0
    } else {
        total_cap(items.drop_last()) + items.last().spec_cap()
    }
}

/// The objective's share for item number `i`: none for targets and products; a
/// resource weighs `total / cap` with abundances, `total` without, and
/// `total / UNCAPPED_DIVISOR` when it has no cap.
pub open spec fn item_terms(
    i: int,
    item: Item,
    is_target: bool,
    total: nat,
    use_abundances: bool,
) -> Seq<ObjectiveTerm> {
    if is_target {
        Seq::empty()
    } else {
        match item {
            Item::Resource(_) => if item.spec_cap() > 0 {
                seq![
                    ObjectiveTerm {
                        item: i as usize,
                        numerator: total as u128,
                        denominator: if use_abundances {
                            item.spec_cap() as u64
                        } else {
                            1
                        },
                    },
                ]
            } else {
                seq![
                    ObjectiveTerm {
                        item: i as usize,
                        numerator: total as u128,
                        denominator: UNCAPPED_DIVISOR,
                    },
                ]
            },
            Item::Product(_) => Seq::empty(),
        }
    }
}

pub open spec fn all_terms(
    items: Seq<Item>,
    targets: Seq<Option<u32>>,
    total: nat,
    use_abundances: bool,
) -> Seq<ObjectiveTerm>
    decreases items.len(),
{
    if items.len() == 0 {
        Seq::empty()
    } else {
        let n = items.len() - 1;
        all_terms(items.drop_last(), targets, total, use_abundances) + item_terms(
            n,
            items[n],
            targets[n] is Some,
            total,
            use_abundances,
        )
    }
}

/// Quantity of the item with id `id` over the reactants of `rs`.
pub fn quantity_in(rs: &[Reactant], id: &String) -> (q: i128)
    ensures
        q == quantity_of(rs@, id@),
        0 <= q <= rs@.len() * 0xffff_ffff,
{
    let mut q: i128 = 0;
    let mut k: usize = 0;
    while k < rs.len()
        invariant
            k <= rs@.len(),
            q == quantity_of(rs@.subrange(0, k as int), id@),
            0 <= q <= k * 0xffff_ffff,
        decreases rs@.len() - k,
    {
        proof {
            assert(rs@.subrange(0, k + 1).drop_last() == rs@.subrange(0, k as int));
        }
        if *rs[k].item.id_string() == *id {
            q = q + rs[k].quantity as i128;
        }
        k = k + 1;
    }
    assert(rs@.subrange(0, rs@.len() as int) == rs@);
    q
}

/// What one run of `r` adds to the stock of the item with id `id`.
pub fn coefficient(r: &Recipe, id: &String) -> (c: i128)
    ensures
        c == net_quantity(*r, id@),
{
    let n_out = r.outputs.len();
    let n_in = r.inputs.len();
    let produced = quantity_in(r.outputs.as_slice(), id);
    let consumed = quantity_in(r.inputs.as_slice(), id);
    assert(produced <= n_out * 0xffff_ffff) by (nonlinear_arith)
        requires
            produced <= r.outputs@.len() * 0xffff_ffff,
            n_out == r.outputs@.len(),
    ;
    assert(consumed <= n_in * 0xffff_ffff) by (nonlinear_arith)
        requires
            consumed <= r.inputs@.len() * 0xffff_ffff,
            n_in == r.inputs@.len(),
    ;
    produced - consumed
}

/// The amount of the first entry whose key is `id`.
pub fn entry_amount(entries: &Vec<(String, u32)>, id: &String) -> (r: Option<u32>)
    ensures
        r == crate::problem_input::entry_for(entries@, id@),
{
    let mut k: usize = entries.len();
    assert(entries@.subrange(0, k as int) == entries@);
    while k > 0
        invariant
            k <= entries@.len(),
            crate::problem_input::entry_for(entries@, id@) == crate::problem_input::entry_for(
                entries@.subrange(0, k as int),
                id@,
            ),
        decreases k,
    {
        let ghost s = entries@.subrange(0, k as int);
        assert(s.drop_last() == entries@.subrange(0, k - 1));
        assert(s.last() == entries@[k - 1]);
        if entries[k - 1].0 == *id {
            return Some(entries[k - 1].1);
        }
        k = k - 1;
    }
    None
}

/// The catalog items of the entries' keys, with their amounts.
fn resolve_entries<B: Book>(entries: &Vec<(String, u32)>, book: &B) -> (r: Result<Vec<(Item, u32)>, Error>)
    requires
        book.book_wf(),
    ensures
        match r {
            Ok(v) => v@.len() == entries@.len() && forall|k: int|
                0 <= k < entries@.len() ==> first_with_id(book.item_list(), #[trigger] entries@[k].0@) is Some
                    && v@[k].0 == book.item_list()[first_with_id(book.item_list(), entries@[k].0@)->0]
                    && v@[k].1 == entries@[k].1,
            Err(e) => e matches Error::UnknownItem(s) && exists|k: int|
                0 <= k < entries@.len() && first_with_id(book.item_list(), #[trigger] entries@[k].0@) is None
                    && s@ == entries@[k].0@,
        },
        r is Ok <==> forall|k: int|
            0 <= k < entries@.len() ==> first_with_id(book.item_list(), #[trigger] entries@[k].0@) is Some,
{
    let mut v: Vec<(Item, u32)> = Vec::new();
    let mut k: usize = 0;
    while k < entries.len()
        invariant
            book.book_wf(),
            k <= entries@.len(),
            v@.len() == k,
            forall|j: int|
                0 <= j < k ==> first_with_id(book.item_list(), #[trigger] entries@[j].0@) is Some
                    && v@[j].0 == book.item_list()[first_with_id(book.item_list(), entries@[j].0@)->0]
                    && v@[j].1 == entries@[j].1,
        decreases entries@.len() - k,
    {
        match book.get_item_by_id(entries[k].0.as_str()) {
            Ok(item) => {
                v.push((item.duplicate(), entries[k].1));
            },
            Err(e) => {
                return Err(e);
            },
        }
        k = k + 1;
    }
    Ok(v)
}

/// `item` is the catalog item of some entry of `entries`.
pub open spec fn item_of_entry(entries: Seq<(String, u32)>, catalog: Seq<Item>, item: Item) -> bool {
    exists|k: int|
        0 <= k < entries.len() && (#[trigger] first_with_id(catalog, entries[k].0@) matches Some(j)
            && catalog[j] == item)
}

/// The items whose balance the problem follows: those of the recipes' reactants and
/// those of the entries (at hand, then asked for), each once.
pub open spec fn balance_items(
    items: Seq<Item>,
    recipes: Seq<Recipe>,
    available: Seq<(String, u32)>,
    catalog: Seq<Item>,
) -> bool {
    &&& distinct_item_ids(items)
    &&& forall|r: int, k: int|
        0 <= r < recipes.len() && 0 <= k < recipes[r].inputs@.len() ==> has_id(
            items,
            (#[trigger] recipes[r].inputs@[k]).item.spec_id(),
        )
    &&& forall|r: int, k: int|
        0 <= r < recipes.len() && 0 <= k < recipes[r].outputs@.len() ==> has_id(
            items,
            (#[trigger] recipes[r].outputs@[k]).item.spec_id(),
        )
    &&& forall|k: int| 0 <= k < available.len() ==> has_id(items, (#[trigger] available[k]).0@)
    &&& forall|a: int|
        0 <= a < items.len() ==> (exists|r: int|
            0 <= r < recipes.len() && (item_of_some(recipes[r].inputs@, #[trigger] items[a])
                || item_of_some(recipes[r].outputs@, items[a]))) || item_of_entry(available, catalog, items[a])
}

/// `p` is the linear program that `input` poses over the recipes of a book.
pub open spec fn poses(p: Problem, input: ProblemInput, recipes: Seq<Recipe>, catalog: Seq<Item>) -> bool {
    let items = p.items@;
    &&& p.recipes@.len() == recipes.len()
    &&& forall|r: int| 0 <= r < recipes.len() ==> (#[trigger] p.recipes@[r]).same_as(&recipes[r])
    &&& balance_items(items, recipes, input.available_items@ + input.target_items@, catalog)
    &&& p.coefficients@.len() == items.len()
    &&& forall|i: int| 0 <= i < items.len() ==> (#[trigger] p.coefficients@[i])@.len() == recipes.len()
    &&& forall|i: int, r: int|
        0 <= i < items.len() && 0 <= r < recipes.len() ==> #[trigger] p.coefficients@[i]@[r]
            == net_quantity(recipes[r], items[i].spec_id())
    &&& p.stock@.len() == items.len()
    &&& forall|i: int|
        0 <= i < items.len() ==> #[trigger] p.stock@[i] == crate::problem_input::entry_for(
            input.available_items@,
            items[i].spec_id(),
        )
    &&& p.targets@.len() == items.len()
    &&& forall|i: int|
        0 <= i < items.len() ==> #[trigger] p.targets@[i] == crate::problem_input::entry_for(
            input.target_items@,
            items[i].spec_id(),
        )
    &&& p.constraints@ == all_constraints(items, p.targets@)
    &&& p.objective@ == all_terms(items, p.targets@, total_cap(items), input.use_abundances)
}

/// Every key of `entries` names an item of the catalog.
pub open spec fn all_known(entries: Seq<(String, u32)>, catalog: Seq<Item>) -> bool {
    forall|k: int| 0 <= k < entries.len() ==> first_with_id(catalog, #[trigger] entries[k].0@) is Some
}

/// Some key of `entries` is `s` and names no item of the catalog.
pub open spec fn unknown_key(entries: Seq<(String, u32)>, catalog: Seq<Item>, s: Seq<char>) -> bool {
    exists|k: int|
        0 <= k < entries.len() && first_with_id(catalog, #[trigger] entries[k].0@) is None && s
            == entries[k].0@
}

/// Builds linear programs from a request and a book.
pub struct Factory {}

impl Factory {
    /// The linear program for `input` over the recipes of `book`; fails on the first
    /// target or available item that the catalog does not know.
    pub fn create_problem<B: Book>(input: &ProblemInput, book: &B) -> (r: Result<Problem, Error>)
        requires
            book.book_wf(),
        ensures
            match r {
                Ok(p) => poses(p, *input, book.recipe_list(), book.item_list()),
                Err(e) => e matches Error::UnknownItem(s) && (unknown_key(
                    input.target_items@,
                    book.item_list(),
                    s@,
                ) || unknown_key(input.available_items@, book.item_list(), s@)),
            },
            r is Ok <==> all_known(input.target_items@, book.item_list()) && all_known(
                input.available_items@,
                book.item_list(),
            ),
    {
        let mut targets = match resolve_entries(&input.target_items, book) {
            Ok(v) => v,
            Err(e) => {
                return Err(e);
            },
        };
        let mut available = match resolve_entries(&input.available_items, book) {
            Ok(v) => v,
            Err(e) => {
                return Err(e);
            },
        };
        let ghost catalog = book.item_list();
        let ghost avail = input.available_items@ + input.target_items@;
        let ghost va = available@;
        let ghost vt = targets@;
        available.append(&mut targets);
        proof {
            assert forall|j: int|
                0 <= j < avail.len() implies first_with_id(catalog, #[trigger] avail[j].0@) is Some
                    && available@[j].0 == catalog[first_with_id(catalog, avail[j].0@)->0] by {
                if j < va.len() {
                    assert(avail[j] == input.available_items@[j]);
                    assert(available@[j] == va[j]);
                } else {
                    let t = j - va.len();
                    assert(avail[j] == input.target_items@[t]);
                    assert(available@[j] == vt[t]);
                }
            }
        }
        let recipes = copy_recipes(book);
        let mut items: Vec<Item> = Vec::new();
        let mut i: usize = 0;
        while i < recipes.len()
            invariant
                i <= recipes@.len(),
                involved_items(items@, recipes@.subrange(0, i as int)),
            decreases recipes@.len() - i,
        {
            items = crate::book::involved_of(Ghost(recipes@.subrange(0, i as int)), items, &recipes[i]);
            assert(recipes@.subrange(0, i as int).push(recipes@[i as int]) == recipes@.subrange(0, i + 1));
            i = i + 1;
        }
        assert(recipes@.subrange(0, recipes@.len() as int) == recipes@);
        let ghost base = items@;
        let mut k: usize = 0;
        #[verifier::rlimit(40)]
        while k < available.len()
            invariant
                involved_items(base, recipes@),
                k <= available@.len(),
                available@.len() == avail.len(),
                forall|j: int|
                    0 <= j < avail.len() ==> first_with_id(catalog, #[trigger] avail[j].0@) is Some
                        && available@[j].0 == catalog[first_with_id(catalog, avail[j].0@)->0],
                distinct_item_ids(items@),
                items@.len() >= base.len(),
                items@.subrange(0, base.len() as int) == base,
                forall|a: int| base.len() <= a < items@.len() ==> item_of_entry(avail, catalog, #[trigger] items@[a]),
                forall|j: int| 0 <= j < k ==> has_id(items@, (#[trigger] avail[j]).0@),
            decreases available@.len() - k,
        {
            let ghost before = items@;
            let ghost j = first_with_id(catalog, avail[k as int].0@)->0;
            proof {
                crate::book::lemma_first_with_id(catalog, avail[k as int].0@);
                assert(available@[k as int].0 == catalog[j]);
            }
            if !contains_id(&items, &available[k].0) {
                items.push(available[k].0.duplicate());
                proof {
                    assert(items@.subrange(0, base.len() as int) == before.subrange(0, base.len() as int));
                    assert forall|a: int| base.len() <= a < items@.len() implies item_of_entry(avail, catalog, #[trigger] items@[a]) by {
                        if a < before.len() {
                            assert(items@[a] == before[a]);
                        } else {
                            assert(items@[a] == catalog[j]);
                            assert(first_with_id(catalog, avail[k as int].0@) matches Some(jj) && (catalog[jj] == items@[a]));
                        }
                    }
                    assert forall|a: int, b: int| 0 <= a < b < items@.len() implies (#[trigger] items@[a]).spec_id() != (#[trigger] items@[b]).spec_id() by {
                        if b == before.len() {
                            assert(items@[a] == before[a]);
                        } else {
                            assert(items@[a] == before[a]);
                            assert(items@[b] == before[b]);
                        }
                    }
                    assert forall|jj: int| 0 <= jj <= k implies has_id(items@, (#[trigger] avail[jj]).0@) by {
                        if jj < k {
                            let a = choose|a: int| 0 <= a < before.len() && #[trigger] before[a].spec_id() == avail[jj].0@;
                            assert(items@[a] == before[a]);
                        } else {
                            assert(items@[before.len() as int].spec_id() == avail[jj].0@);
                        }
                    }
                }
            } else {
                proof {
                    let a = choose|a: int| 0 <= a < items@.len() && #[trigger] items@[a].spec_id() == available@[k as int].0.spec_id();
                    assert(has_id(items@, avail[k as int].0@));
                }
            }
            k = k + 1;
        }
        proof {
            assert forall|r: int, kk: int| 0 <= r < recipes@.len() && 0 <= kk < recipes@[r].inputs@.len() implies has_id(
                items@, (#[trigger] recipes@[r].inputs@[kk]).item.spec_id()) by {
                let a = choose|a: int| 0 <= a < base.len() && #[trigger] base[a].spec_id() == recipes@[r].inputs@[kk].item.spec_id();
                assert(items@[a] == base[a]);
            }
            assert forall|r: int, kk: int| 0 <= r < recipes@.len() && 0 <= kk < recipes@[r].outputs@.len() implies has_id(
                items@, (#[trigger] recipes@[r].outputs@[kk]).item.spec_id()) by {
                let a = choose|a: int| 0 <= a < base.len() && #[trigger] base[a].spec_id() == recipes@[r].outputs@[kk].item.spec_id();
                assert(items@[a] == base[a]);
            }
            assert forall|a: int| 0 <= a < items@.len() implies (exists|r: int|
                0 <= r < recipes@.len() && (item_of_some(recipes@[r].inputs@, #[trigger] items@[a])
                    || item_of_some(recipes@[r].outputs@, items@[a]))) || item_of_entry(avail, catalog, items@[a]) by {
                if a < base.len() {
                    assert(items@[a] == base[a]);
                }
            }
            assert(balance_items(items@, recipes@, avail, catalog));
        }
        Self::finish(input, recipes, items, Ghost(book.recipe_list()), Ghost(catalog))
    }
}

/// A copy of the recipes that `book` shows, in order.
fn copy_recipes<B: Book>(book: &B) -> (r: Vec<Recipe>)
    requires
        book.book_wf(),
    ensures
        r@.len() == book.recipe_list().len(),
        forall|j: int| 0 <= j < r@.len() ==> (#[trigger] r@[j]).same_as(&book.recipe_list()[j]),
{
    let n = book.number_of_recipes();
    let mut recipes: Vec<Recipe> = Vec::new();
    let mut i: usize = 0;
    while i < n
        invariant
            book.book_wf(),
            n == book.recipe_list().len(),
            i <= n,
            recipes@.len() == i,
            forall|j: int| 0 <= j < i ==> (#[trigger] recipes@[j]).same_as(&book.recipe_list()[j]),
        decreases n - i,
    {
        match book.get_recipe(i) {
            Ok(r) => {
                recipes.push(r.duplicate());
            },
            Err(_) => {
                assert(false);
            },
        }
        i = i + 1;
    }
    recipes
}

/// The cap of an item is below 2^44.
pub proof fn lemma_cap_bound(item: Item)
    ensures
        item.spec_cap() < 0x1000_0000_0000,
{
    match item {
        Item::Resource(r) => match r.nodes {
            Some(n) => {
                assert(n.impure * 300 <= 0xffff_ffff * 300) by (nonlinear_arith)
                    requires
                        n.impure <= 0xffff_ffff,
                ;
                assert(n.normal * 600 <= 0xffff_ffff * 600) by (nonlinear_arith)
                    requires
                        n.normal <= 0xffff_ffff,
                ;
                assert(n.pure * 780 <= 0xffff_ffff * 780) by (nonlinear_arith)
                    requires
                        n.pure <= 0xffff_ffff,
                ;
            },
            None => {},
        },
        Item::Product(_) => {},
    }
}

impl Factory {
    fn finish(
        input: &ProblemInput,
        recipes: Vec<Recipe>,
        items: Vec<Item>,
        Ghost(book_recipes): Ghost<Seq<Recipe>>,
        Ghost(catalog): Ghost<Seq<Item>>,
    ) -> (r: Result<Problem, Error>)
        requires
            recipes@.len() == book_recipes.len(),
            forall|j: int| 0 <= j < recipes@.len() ==> (#[trigger] recipes@[j]).same_as(&book_recipes[j]),
            balance_items(items@, recipes@, input.available_items@ + input.target_items@, catalog),
        ensures
            r matches Ok(p) && poses(p, *input, book_recipes, catalog),
    {
        let n_items = items.len();
        let n_recipes = recipes.len();
        let mut coefficients: Vec<Vec<i128>> = Vec::new();
        let mut stock: Vec<Option<u32>> = Vec::new();
        let mut targets: Vec<Option<u32>> = Vec::new();
        let mut total: u128 = 0;
        let mut i: usize = 0;
        while i < n_items
            invariant
                n_items == items@.len(),
                n_recipes == recipes@.len(),
                recipes@.len() == book_recipes.len(),
                forall|j: int| 0 <= j < recipes@.len() ==> (#[trigger] recipes@[j]).same_as(&book_recipes[j]),
                i <= n_items,
                coefficients@.len() == i,
                stock@.len() == i,
                targets@.len() == i,
                forall|a: int| 0 <= a < i ==> (#[trigger] coefficients@[a])@.len() == n_recipes,
                forall|a: int, b: int|
                    0 <= a < i && 0 <= b < n_recipes ==> #[trigger] coefficients@[a]@[b]
                        == net_quantity(book_recipes[b], items@[a].spec_id()),
                forall|a: int|
                    0 <= a < i ==> #[trigger] stock@[a] == crate::problem_input::entry_for(
                        input.available_items@,
                        items@[a].spec_id(),
                    ),
                forall|a: int|
                    0 <= a < i ==> #[trigger] targets@[a] == crate::problem_input::entry_for(
                        input.target_items@,
                        items@[a].spec_id(),
                    ),
                total == total_cap(items@.subrange(0, i as int)),
                total <= i * 0x1000_0000_0000,
            decreases n_items - i,
        {
            let id = items[i].id_string();
            let mut row: Vec<i128> = Vec::new();
            let mut r: usize = 0;
            while r < n_recipes
                invariant
                    n_recipes == recipes@.len(),
                    recipes@.len() == book_recipes.len(),
                    forall|j: int| 0 <= j < recipes@.len() ==> (#[trigger] recipes@[j]).same_as(&book_recipes[j]),
                    r <= n_recipes,
                    row@.len() == r,
                    forall|b: int| 0 <= b < r ==> #[trigger] row@[b] == net_quantity(book_recipes[b], id@),
                decreases n_recipes - r,
            {
                let c = coefficient(&recipes[r], id);
                assert(recipes@[r as int].same_as(&book_recipes[r as int]));
                row.push(c);
                r = r + 1;
            }
            coefficients.push(row);
            stock.push(entry_amount(&input.available_items, id));
            targets.push(entry_amount(&input.target_items, id));
            let cap = items[i].cap();
            proof {
                lemma_cap_bound(items@[i as int]);
                assert(items@.subrange(0, i + 1).drop_last() == items@.subrange(0, i as int));
            }
            total = total + cap as u128;
            i = i + 1;
        }
        assert(items@.subrange(0, n_items as int) == items@);
        let mut constraints: Vec<Constraint> = Vec::new();
        let mut objective: Vec<ObjectiveTerm> = Vec::new();
        let mut i: usize = 0;
        while i < n_items
            invariant
                n_items == items@.len(),
                targets@.len() == n_items,
                i <= n_items,
                total == total_cap(items@),
                constraints@ == all_constraints(items@.subrange(0, i as int), targets@),
                objective@ == all_terms(items@.subrange(0, i as int), targets@, total as nat, input.use_abundances),
            decreases n_items - i,
        {
            proof {
                assert(items@.subrange(0, i + 1).drop_last() == items@.subrange(0, i as int));
                lemma_cap_bound(items@[i as int]);
            }
            let item = &items[i];
            let cap = item.cap();
            let target = targets[i];
            let ghost before_c = constraints@;
            let ghost before_o = objective@;
            match item {
                Item::Resource(_) => {
                    constraints.push(Constraint { item: i, relation: Relation::AtMost, bound: 0 });
                    if cap > 0 {
                        constraints.push(Constraint { item: i, relation: Relation::AtLeast, bound: -(cap as i64) });
                    }
                    if target.is_none() {
                        if cap > 0 {
                            let denominator: u64 = if input.use_abundances { cap } else { 1 };
                            objective.push(ObjectiveTerm { item: i, numerator: total, denominator });
                        } else {
                            objective.push(ObjectiveTerm { item: i, numerator: total, denominator: UNCAPPED_DIVISOR });
                        }
                    }
                },
                Item::Product(_) => {
                    match target {
                        Some(t) => {
                            if t > 0 {
                                constraints.push(Constraint { item: i, relation: Relation::Exactly, bound: t as i64 });
                            } else {
                                constraints.push(Constraint { item: i, relation: Relation::AtLeast, bound: 0 });
                            }
                        },
                        None => {
                            constraints.push(Constraint { item: i, relation: Relation::AtLeast, bound: 0 });
                        },
                    }
                },
            }
            proof {
                let sub = items@.subrange(0, i + 1);
                assert(sub[i as int] == items@[i as int]);
                assert(constraints@ =~= before_c + item_constraints(i as int, items@[i as int], targets@[i as int]));
                assert(objective@ =~= before_o + item_terms(i as int, items@[i as int], targets@[i as int] is Some, total as nat, input.use_abundances));
            }
            i = i + 1;
        }
        let p = Problem { recipes, items, coefficients, stock, targets, constraints, objective };
        proof {
            let items = p.items@;
            assert forall|r: int, k: int| 0 <= r < book_recipes.len() && 0 <= k < book_recipes[r].inputs@.len() implies has_id(
                items, (#[trigger] book_recipes[r].inputs@[k]).item.spec_id()) by {
                assert(p.recipes@[r].same_as(&book_recipes[r]));
                assert(p.recipes@[r].inputs@[k] == book_recipes[r].inputs@[k]);
            }
            assert forall|r: int, k: int| 0 <= r < book_recipes.len() && 0 <= k < book_recipes[r].outputs@.len() implies has_id(
                items, (#[trigger] book_recipes[r].outputs@[k]).item.spec_id()) by {
                assert(p.recipes@[r].same_as(&book_recipes[r]));
                assert(p.recipes@[r].outputs@[k] == book_recipes[r].outputs@[k]);
            }
            assert forall|a: int| 0 <= a < items.len() implies (exists|r: int|
                0 <= r < book_recipes.len() && (item_of_some(book_recipes[r].inputs@, #[trigger] items[a])
                    || item_of_some(book_recipes[r].outputs@, items[a]))) || item_of_entry(input.available_items@ + input.target_items@, catalog, items[a]) by {
                if !item_of_entry(input.available_items@ + input.target_items@, catalog, items[a]) {
                    let r = choose|r: int| 0 <= r < p.recipes@.len() && (item_of_some(p.recipes@[r].inputs@, #[trigger] items[a])
                        || item_of_some(p.recipes@[r].outputs@, items[a]));
                    assert(p.recipes@[r].same_as(&book_recipes[r]));
                }
            }
            assert(items.subrange(0, items.len() as int) == items);
        }
        Ok(p)
    }
}

} // verus!
