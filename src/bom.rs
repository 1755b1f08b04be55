use vstd::prelude::*;

use crate::building::Building;
use crate::complexity::{covers, is_stable_order, item_depths_ok, recipe_depth};
use crate::error::{Error, LpFailure};
use crate::item::Item;
use crate::problem::{Constraint, Problem, Relation};
use crate::recipe::Recipe;

verus! {

/// Amounts are counted in billionths of an item per minute.
pub const UNITS_PER_ITEM: u64 = 1_000_000_000;

/// Amounts below a millionth of an item per minute count as nothing.
pub const EPSILON: i128 = 1_000;

pub open spec fn spec_is_nil(v: int) -> bool {
    -EPSILON < v < EPSILON
}

/// The amount is below a millionth of an item, either way.
pub fn is_nil(v: i128) -> (r: bool)
    ensures
        r == spec_is_nil(v as int),
{
    -EPSILON < v && v < EPSILON
}

/// The amount is at least a millionth of an item, either way.
pub fn is_not_nil(v: i128) -> (r: bool)
    ensures
        r == !spec_is_nil(v as int),
{
    !is_nil(v)
}

pub open spec fn in_i128(v: int) -> bool {
    i128::MIN <= v <= i128::MAX
}

/// `sum over r < n of coefs[r] * x[r]`.
pub open spec fn partial(coefs: Seq<i128>, x: Seq<u64>, n: int) -> int
    decreases n,
{
    if n <= 0 {
        0
    } else {
        partial(coefs, x, n - 1) + coefs[n - 1] * x[n - 1]
    }
}

/// The amount at hand, in units.
pub open spec fn stock_units(s: Option<u32>) -> int {
    match s {
        Some(a) => a * UNITS_PER_ITEM,
        None => 0,
    }
}

/// Each product, each partial sum and the balance itself fit in an `i128`.
pub open spec fn row_fits(coefs: Seq<i128>, x: Seq<u64>, extra: int) -> bool {
    &&& forall|r: int| 0 <= r < coefs.len() ==> in_i128(#[trigger] coefs[r] * x[r])
    &&& forall|r: int| 0 <= r <= coefs.len() ==> in_i128(#[trigger] partial(coefs, x, r))
    &&& in_i128(partial(coefs, x, coefs.len() as int) + extra)
    &&& in_i128(-(partial(coefs, x, coefs.len() as int) + extra))
}

pub open spec fn problem_wf(p: &Problem) -> bool {
    &&& p.coefficients@.len() == p.items@.len()
    &&& p.stock@.len() == p.items@.len()
    &&& p.targets@.len() == p.items@.len()
    &&& forall|i: int| 0 <= i < p.items@.len() ==> (#[trigger] p.coefficients@[i])@.len() == p.recipes@.len()
}

/// The balance of item `i` under the runs per minute `x`, in units.
pub open spec fn balance(p: &Problem, x: Seq<u64>, i: int) -> int {
    partial(p.coefficients@[i]@, x, p.recipes@.len() as int) + stock_units(p.stock@[i])
}

/// Every balance under `x` can be computed in `i128`.
pub open spec fn fits(p: &Problem, x: Seq<u64>) -> bool {
    forall|i: int|
        0 <= i < p.items@.len() ==> row_fits(
            #[trigger] p.coefficients@[i]@,
            x,
            stock_units(p.stock@[i]),
        )
}

/// The balance of one item, if it fits.
fn balance_of(coefs: &Vec<i128>, x: &Vec<u64>, stock: Option<u32>) -> (r: Option<i128>)
    requires
        coefs@.len() == x@.len(),
    ensures
        match r {
            Some(v) => row_fits(coefs@, x@, stock_units(stock)) && v == partial(coefs@, x@, coefs@.len() as int)
                + stock_units(stock),
            None => !row_fits(coefs@, x@, stock_units(stock)),
        },
{
    let mut sum: i128 = 0;
    let mut r: usize = 0;
    while r < coefs.len()
        invariant
            coefs@.len() == x@.len(),
            r <= coefs@.len(),
            sum == partial(coefs@, x@, r as int),
            forall|j: int| 0 <= j < r ==> in_i128(#[trigger] coefs@[j] * x@[j]),
            forall|j: int| 0 <= j <= r ==> in_i128(#[trigger] partial(coefs@, x@, j)),
        decreases coefs@.len() - r,
    {
        let term = match coefs[r].checked_mul(x[r] as i128) {
            Some(t) => t,
            None => {
                assert(!in_i128(coefs@[r as int] * x@[r as int]));
                return None;
            },
        };
        sum = match sum.checked_add(term) {
            Some(s) => s,
            None => {
                assert(!in_i128(partial(coefs@, x@, r + 1)));
                return None;
            },
        };
        r = r + 1;
    }
    let extra: i128 = match stock {
        Some(a) => {
            assert(a as i128 * 1_000_000_000 <= 0xffff_ffff * 1_000_000_000) by (nonlinear_arith)
                requires
                    a <= 0xffff_ffff,
            ;
            a as i128 * UNITS_PER_ITEM as i128
        },
        None => 0,
    };
    match sum.checked_add(extra) {
        Some(v) => if v == i128::MIN {
            None
        } else {
            Some(v)
        },
        None => None,
    }
}

/// Bill of materials: what is delivered, what is at hand, what must be extracted,
/// what is left over, the runs per minute of each recipe, and the buildings needed.
/// Amounts are in units of `1 / UNITS_PER_ITEM` item per minute.
pub struct Bom {
    pub targets: Vec<(Item, i128)>,
    pub available_items: Vec<(Item, i128)>,
    pub requirements: Vec<(Item, i128)>,
    pub leftovers: Vec<(Item, i128)>,
    pub recipes: Vec<(Recipe, u64)>,
    pub buildings: Vec<(Building, u128)>,
}

/// The buildings that `x` units of runs per minute of a recipe lasting `duration`
/// seconds keep busy, rounded up: `x * duration / 60`, in items.
#[verifier::opaque]
pub open spec fn units_of(x: u64, duration: u32) -> nat {
    ((x * duration + 60 * UNITS_PER_ITEM - 1) / (60 * UNITS_PER_ITEM as int)) as nat
}

/// The buildings with id `id` that the recipes `rs` need, summed over the recipes.
pub open spec fn building_units(rs: Seq<(Recipe, u64)>, id: Seq<char>) -> nat
    decreases rs.len(),
{
    if rs.len() == 0 {
        0
    } else {
        building_units(rs.drop_last(), id) + if rs.last().0.building.spec_id() == id {
            units_of(rs.last().1, rs.last().0.duration)
        } else {
            0
        }
    }
}

/// Some building of `buildings` has the id `id`.
pub open spec fn has_building(buildings: Seq<Building>, id: Seq<char>) -> bool {
    exists|a: int| 0 <= a < buildings.len() && #[trigger] buildings[a].spec_id() == id
}

/// `b` is the building of one of the first `j` recipes of `rs`.
pub open spec fn building_of_some(rs: Seq<(Recipe, u64)>, j: int, b: Building) -> bool {
    exists|t: int| 0 <= t < j && (#[trigger] rs[t]).0.building == b
}

/// `buildings` counts, once per building id, what the recipes `rs` need.
pub open spec fn counts_buildings(buildings: Seq<(Building, u128)>, rs: Seq<(Recipe, u64)>) -> bool {
    &&& forall|a: int, b: int|
        0 <= a < b < buildings.len() ==> (#[trigger] buildings[a]).0.spec_id() != (
        #[trigger] buildings[b]).0.spec_id()
    &&& forall|a: int|
        0 <= a < buildings.len() ==> (#[trigger] buildings[a]).1 == building_units(
            rs,
            buildings[a].0.spec_id(),
        )
    &&& forall|a: int|
        0 <= a < buildings.len() ==> building_of_some(rs, rs.len() as int, (#[trigger] buildings[a]).0)
    &&& forall|j: int|
        0 <= j < rs.len() ==> has_building(
            buildings.map_values(|e: (Building, u128)| e.0),
            (#[trigger] rs[j]).0.building.spec_id(),
        )
}

proof fn lemma_units_bound(x: u64, duration: u32)
    ensures
        units_of(x, duration) < 0x2000_0000_0000_0000,
{
    reveal(units_of);
    let k: int = 60 * UNITS_PER_ITEM as int;
    let a: int = x * duration + k - 1;
    assert(x * duration <= 0xffff_ffff_ffff_ffff * 0xffff_ffff) by (nonlinear_arith)
        requires
            x <= 0xffff_ffff_ffff_ffff,
            duration <= 0xffff_ffff,
    ;
    assert(a < 0x2000_0000_0000_0000 * k);
    assert(a / k < 0x2000_0000_0000_0000) by (nonlinear_arith)
        requires
            a < 0x2000_0000_0000_0000 * k,
            k > 0,
            a >= 0,
    ;
}

proof fn lemma_no_units_without(rs: Seq<(Recipe, u64)>, id: Seq<char>)
    requires
        forall|j: int| 0 <= j < rs.len() ==> (#[trigger] rs[j]).0.building.spec_id() != id,
    ensures
        building_units(rs, id) == 0,
    decreases rs.len(),
{
    if rs.len() > 0 {
        lemma_no_units_without(rs.drop_last(), id);
    }
}

/// Buildings that one recipe needs at `x` units of runs per minute.
fn units_for(x: u64, duration: u32) -> (u: u128)
    ensures
        u == units_of(x, duration),
        u < 0x2000_0000_0000_0000,
{
    proof {
        reveal(units_of);
        lemma_units_bound(x, duration);
        assert(x * duration <= 0xffff_ffff_ffff_ffff * 0xffff_ffff) by (nonlinear_arith)
            requires
                x <= 0xffff_ffff_ffff_ffff,
                duration <= 0xffff_ffff,
        ;
    }
    let k: u128 = 60 * UNITS_PER_ITEM as u128;
    (x as u128 * duration as u128 + k - 1) / k
}

/// `buildings` and `counts` tally, once per building id, what the first `j` recipes need.
pub open spec fn tally(buildings: Seq<Building>, counts: Seq<u128>, rs: Seq<(Recipe, u64)>, j: int) -> bool {
    &&& 0 <= j <= rs.len()
    &&& buildings.len() == counts.len()
    &&& forall|a: int, b: int|
        0 <= a < b < buildings.len() ==> (#[trigger] buildings[a]).spec_id() != (
        #[trigger] buildings[b]).spec_id()
    &&& forall|a: int|
        0 <= a < buildings.len() ==> #[trigger] counts[a] == building_units(
            rs.subrange(0, j),
            buildings[a].spec_id(),
        )
    &&& forall|a: int| 0 <= a < counts.len() ==> #[trigger] counts[a] <= j * 0x2000_0000_0000_0000
    &&& forall|a: int| 0 <= a < buildings.len() ==> building_of_some(rs, j, #[trigger] buildings[a])
    &&& forall|t: int| 0 <= t < j ==> has_building(buildings, (#[trigger] rs[t]).0.building.spec_id())
}

/// Adds what recipe `j` needs to the tally.
#[verifier::rlimit(40)]
fn tally_one(buildings: &mut Vec<Building>, counts: &mut Vec<u128>, rs: &Vec<(Recipe, u64)>, j: usize)
    requires
        j < rs@.len(),
        tally(old(buildings)@, old(counts)@, rs@, j as int),
    ensures
        tally(final(buildings)@, final(counts)@, rs@, j + 1),
{
    let u = units_for(rs[j].1, rs[j].0.duration);
    let id = rs[j].0.building.id_string();
    let ghost sub = rs@.subrange(0, j as int);
    let ghost sub1 = rs@.subrange(0, j + 1);
    proof {
        assert(sub1.drop_last() == sub);
        assert(sub1.last() == rs@[j as int]);
    }
    let mut k: usize = 0;
    while k < buildings.len() && !(*buildings[k].id_string() == *id)
        invariant
            k <= buildings@.len(),
            forall|a: int| 0 <= a < k ==> (#[trigger] buildings@[a]).spec_id() != id@,
        decreases buildings@.len() - k,
    {
        k = k + 1;
    }
    let ghost before_b = buildings@;
    let ghost before_c = counts@;
    if k < buildings.len() {
        assert(counts@[k as int] <= j * 0x2000_0000_0000_0000);
        let c = counts[k] + u;
        counts.set(k, c);
        proof {
            assert forall|a: int| 0 <= a < buildings@.len() implies #[trigger] counts@[a] == building_units(
                sub1, buildings@[a].spec_id()) by {
                if a != k {
                    assert(before_c[a] == counts@[a]);
                }
            }
            assert forall|a: int| 0 <= a < counts@.len() implies #[trigger] counts@[a] <= (j + 1) * 0x2000_0000_0000_0000 by {
                if a != k {
                    assert(before_c[a] == counts@[a]);
                }
            }
            assert forall|a: int| 0 <= a < buildings@.len() implies building_of_some(rs@, j + 1, #[trigger] buildings@[a]) by {
                assert(building_of_some(rs@, j as int, buildings@[a]));
            }
            assert forall|t: int| 0 <= t < j + 1 implies has_building(buildings@, (#[trigger] rs@[t]).0.building.spec_id()) by {
                if t == j {
                    assert(buildings@[k as int].spec_id() == rs@[t].0.building.spec_id());
                }
            }
        }
    } else {
        proof {
            assert forall|t: int| 0 <= t < sub.len() implies (#[trigger] sub[t]).0.building.spec_id() != id@ by {
                assert(sub[t] == rs@[t]);
                assert(has_building(buildings@, rs@[t].0.building.spec_id()));
            }
            lemma_no_units_without(sub, id@);
        }
        buildings.push(rs[j].0.building.duplicate());
        counts.push(u);
        proof {
            let n = before_b.len() as int;
            assert forall|a: int, b: int| 0 <= a < b < buildings@.len() implies (#[trigger] buildings@[a]).spec_id() != (
                #[trigger] buildings@[b]).spec_id() by {
                assert(buildings@[a] == before_b[a]);
                if b < n {
                    assert(buildings@[b] == before_b[b]);
                }
            }
            assert forall|a: int| 0 <= a < buildings@.len() implies #[trigger] counts@[a] == building_units(
                sub1, buildings@[a].spec_id()) by {
                if a < n {
                    assert(before_c[a] == counts@[a]);
                    assert(before_b[a] == buildings@[a]);
                }
            }
            assert forall|a: int| 0 <= a < counts@.len() implies #[trigger] counts@[a] <= (j + 1) * 0x2000_0000_0000_0000 by {
                if a < n {
                    assert(before_c[a] == counts@[a]);
                }
            }
            assert forall|a: int| 0 <= a < buildings@.len() implies building_of_some(rs@, j + 1, #[trigger] buildings@[a]) by {
                if a < n {
                    assert(before_b[a] == buildings@[a]);
                    assert(building_of_some(rs@, j as int, before_b[a]));
                } else {
                    assert(rs@[j as int].0.building == buildings@[a]);
                }
            }
            assert forall|t: int| 0 <= t < j + 1 implies has_building(buildings@, (#[trigger] rs@[t]).0.building.spec_id()) by {
                if t == j {
                    assert(buildings@[n].spec_id() == rs@[t].0.building.spec_id());
                } else {
                    assert(has_building(before_b, rs@[t].0.building.spec_id()));
                    let a = choose|a: int| 0 <= a < before_b.len() && #[trigger] before_b[a].spec_id()
                        == rs@[t].0.building.spec_id();
                    assert(before_b[a] == buildings@[a]);
                }
            }
        }
    }
}

/// The buildings that the recipes need, one entry per building id in order of first use.
pub fn count_buildings(rs: &Vec<(Recipe, u64)>) -> (r: Vec<(Building, u128)>)
    ensures
        counts_buildings(r@, rs@),
{
    let mut buildings: Vec<Building> = Vec::new();
    let mut counts: Vec<u128> = Vec::new();
    let mut j: usize = 0;
    while j < rs.len()
        invariant
            tally(buildings@, counts@, rs@, j as int),
        decreases rs@.len() - j,
    {
        tally_one(&mut buildings, &mut counts, rs, j);
        j = j + 1;
    }
    assert(rs@.subrange(0, rs@.len() as int) == rs@);
    let mut r: Vec<(Building, u128)> = Vec::new();
    let mut a: usize = 0;
    while a < buildings.len()
        invariant
            a <= buildings@.len(),
            buildings@.len() == counts@.len(),
            r@.len() == a,
            forall|t: int| 0 <= t < a ==> (#[trigger] r@[t]).0 == buildings@[t] && r@[t].1 == counts@[t],
        decreases buildings@.len() - a,
    {
        r.push((buildings[a].duplicate(), counts[a]));
        a = a + 1;
    }
    proof {
        let bs = r@.map_values(|e: (Building, u128)| e.0);
        assert(bs =~= buildings@);
        assert forall|x: int| 0 <= x < r@.len() implies building_of_some(rs@, rs@.len() as int, (#[trigger] r@[x]).0) by {
            assert(r@[x].0 == buildings@[x]);
        }
        assert forall|x: int, y: int| 0 <= x < y < r@.len() implies (#[trigger] r@[x]).0.spec_id() != (
            #[trigger] r@[y]).0.spec_id() by {
            assert(r@[x].0 == buildings@[x]);
            assert(r@[y].0 == buildings@[y]);
        }
    }
    r
}

/// The recipes of the entries.
pub open spec fn recipes_of(rs: Seq<(Recipe, u64)>) -> Seq<Recipe> {
    rs.map_values(|e: (Recipe, u64)| e.0)
}

/// `out` holds the entries of `rs` sorted by ascending complexity, ties in order.
pub open spec fn sorted_by_complexity(out: Seq<(Recipe, u64)>, rs: Seq<(Recipe, u64)>) -> bool {
    exists|keys: Seq<u64>, idx: Seq<usize>, d: Map<Seq<char>, nat>, ord: Map<Seq<char>, nat>|
        #[trigger] is_stable_order(idx, keys) && #[trigger] item_depths_ok(recipes_of(rs), d, ord) && covers(
            recipes_of(rs),
            d,
        ) && keys.len() == rs.len() && (forall|r: int|
            0 <= r < rs.len() ==> keys[r] == recipe_depth(#[trigger] rs[r].0, d)) && out.len()
            == idx.len() && forall|j: int|
            0 <= j < out.len() ==> (#[trigger] out[j]).0.same_as(&rs[idx[j] as int].0) && out[j].1
                == rs[idx[j] as int].1
}

impl Bom {
    /// A bill of materials from its parts: the recipes are put in ascending order of
    /// complexity and the buildings they need are counted.
    pub fn new(
        targets: Vec<(Item, i128)>,
        available_items: Vec<(Item, i128)>,
        requirements: Vec<(Item, i128)>,
        leftovers: Vec<(Item, i128)>,
        recipes: Vec<(Recipe, u64)>,
    ) -> (r: Self)
        ensures
            r.targets@ == targets@,
            r.available_items@ == available_items@,
            r.requirements@ == requirements@,
            r.leftovers@ == leftovers@,
            sorted_by_complexity(r.recipes@, recipes@),
            counts_buildings(r.buildings@, r.recipes@),
    {
        let mut plain: Vec<Recipe> = Vec::new();
        let mut j: usize = 0;
        while j < recipes.len()
            invariant
                j <= recipes@.len(),
                plain@.len() == j,
                forall|t: int| 0 <= t < j ==> (#[trigger] plain@[t]).same_as(&recipes@[t].0),
            decreases recipes@.len() - j,
        {
            plain.push(recipes[j].0.duplicate());
            j = j + 1;
        }
        let keys = crate::complexity::compute_complexity(plain.as_slice());
        let idx = crate::complexity::stable_order(&keys);
        let mut sorted: Vec<(Recipe, u64)> = Vec::new();
        let mut j: usize = 0;
        while j < idx.len()
            invariant
                is_stable_order(idx@, keys@),
                keys@.len() == recipes@.len(),
                j <= idx@.len(),
                sorted@.len() == j,
                forall|t: int|
                    0 <= t < j ==> (#[trigger] sorted@[t]).0.same_as(&recipes@[idx@[t] as int].0)
                        && sorted@[t].1 == recipes@[idx@[t] as int].1,
            decreases idx@.len() - j,
        {
            let k = idx[j];
            sorted.push((recipes[k].0.duplicate(), recipes[k].1));
            j = j + 1;
        }
        let buildings = count_buildings(&sorted);
        proof {
            let (d, ord) = choose|d: Map<Seq<char>, nat>, ord: Map<Seq<char>, nat>|
                #[trigger] item_depths_ok(plain@, d, ord) && covers(plain@, d) && forall|r: int|
                    0 <= r < plain@.len() ==> keys@[r] == recipe_depth(plain@[r], d);
            let rs = recipes_of(recipes@);
            assert forall|t: int| 0 <= t < plain@.len() implies (#[trigger] plain@[t]).same_as(&rs[t]) by {}
            crate::complexity::lemma_same_recipes(plain@, rs, d, ord);
            assert forall|r: int| 0 <= r < recipes@.len() implies keys@[r] == recipe_depth(#[trigger] recipes@[r].0, d) by {
                assert(rs[r] == recipes@[r].0);
                assert(plain@[r].same_as(&rs[r]));
            }
            assert(is_stable_order(idx@, keys@) && item_depths_ok(recipes_of(recipes@), d, ord));
        }
        Bom { targets, available_items, requirements, leftovers, recipes: sorted, buildings }
    }
}

/// Entries with their amounts as integers.
pub open spec fn ints(v: Seq<(Item, i128)>) -> Seq<(Item, int)> {
    v.map_values(|e: (Item, i128)| (e.0, e.1 as int))
}

/// The entries `(items[n], value(n))` for the positions `n` that `keep` selects, in order.
pub open spec fn select(items: Seq<Item>, keep: spec_fn(int) -> bool, value: spec_fn(int) -> int) -> Seq<(Item, int)>
    decreases items.len(),
{
    if items.len() == 0 {
        Seq::empty()
    } else {
        let n = items.len() - 1;
        let prev = select(items.drop_last(), keep, value);
        if keep(n) {
            prev.push((items[n], value(n)))
        } else {
            prev
        }
    }
}

/// The resources with a balance that is not nil, with the amount extracted.
pub open spec fn requirement_entries(items: Seq<Item>, amounts: Seq<int>) -> Seq<(Item, int)> {
    select(items, |n: int| !spec_is_nil(amounts[n]) && items[n] is Resource, |n: int| -amounts[n])
}

/// The targeted products with a balance that is not nil, with that balance.
pub open spec fn target_entries(items: Seq<Item>, amounts: Seq<int>, targets: Seq<Option<u32>>) -> Seq<(Item, int)> {
    select(
        items,
        |n: int| !spec_is_nil(amounts[n]) && items[n] is Product && targets[n] is Some,
        |n: int| amounts[n],
    )
}

/// The other products with a balance that is not nil, with that balance.
pub open spec fn leftover_entries(items: Seq<Item>, amounts: Seq<int>, targets: Seq<Option<u32>>) -> Seq<(Item, int)> {
    select(
        items,
        |n: int| !spec_is_nil(amounts[n]) && items[n] is Product && targets[n] is None,
        |n: int| amounts[n],
    )
}

/// The items at hand, with the amount at hand in units.
pub open spec fn available_entries(items: Seq<Item>, stock: Seq<Option<u32>>) -> Seq<(Item, int)> {
    select(items, |n: int| stock[n] is Some, |n: int| stock_units(stock[n]))
}

/// The recipes that run at least a millionth of a time per minute, with their runs.
pub open spec fn used_entries(rs: Seq<Recipe>, x: Seq<u64>) -> Seq<(Recipe, u64)>
    decreases rs.len(),
{
    if rs.len() == 0 {
        Seq::empty()
    } else {
        let n = rs.len() - 1;
        let prev = used_entries(rs.drop_last(), x);
        if x[n] >= EPSILON {
            prev.push((rs[n], x[n]))
        } else {
            prev
        }
    }
}

pub open spec fn same_entries(a: Seq<(Recipe, u64)>, b: Seq<(Recipe, u64)>) -> bool {
    &&& a.len() == b.len()
    &&& forall|j: int| 0 <= j < a.len() ==> (#[trigger] a[j]).0.same_as(&b[j].0) && a[j].1 == b[j].1
}

/// The balances of all items under `x`.
pub open spec fn amounts(p: &Problem, x: Seq<u64>) -> Seq<int> {
    Seq::new(p.items@.len() as nat, |i: int| balance(p, x, i))
}

/// `b` is the bill of materials for the runs per minute `x` of the recipes of `p`.
pub open spec fn bom_of(p: &Problem, x: Seq<u64>, b: &Bom) -> bool {
    let a = amounts(p, x);
    &&& ints(b.requirements@) == requirement_entries(p.items@, a)
    &&& ints(b.targets@) == target_entries(p.items@, a, p.targets@)
    &&& ints(b.leftovers@) == leftover_entries(p.items@, a, p.targets@)
    &&& ints(b.available_items@) == available_entries(p.items@, p.stock@)
    &&& exists|used: Seq<(Recipe, u64)>|
        same_entries(used, used_entries(p.recipes@, x)) && #[trigger] sorted_by_complexity(b.recipes@, used)
    &&& counts_buildings(b.buildings@, b.recipes@)
}

impl Problem {
    /// The bill of materials for runs per minute `x` of the recipes, in units: each
    /// item's balance goes to the requirements (resources), the targets or the
    /// leftovers, unless it is nil; recipes that run less than a millionth of a time
    /// per minute are left out. Fails when a balance does not fit in an `i128`.
    pub fn create_bom(&self, x: &Vec<u64>) -> (r: Result<Bom, Error>)
        requires
            problem_wf(self),
            x@.len() == self.recipes@.len(),
        ensures
            r is Ok <==> fits(self, x@),
            match r {
                Ok(b) => bom_of(self, x@, &b),
                Err(e) => e == Error::ResolutionFailed(LpFailure::Numerical),
            },
    {
        let n = self.items.len();
        let mut values: Vec<i128> = Vec::new();
        let mut i: usize = 0;
        while i < n
            invariant
                problem_wf(self),
                x@.len() == self.recipes@.len(),
                n == self.items@.len(),
                i <= n,
                values@.len() == i,
                forall|k: int| 0 <= k < i ==> row_fits(#[trigger] self.coefficients@[k]@, x@, stock_units(self.stock@[k])),
                forall|k: int| 0 <= k < i ==> #[trigger] values@[k] == balance(self, x@, k),
            decreases n - i,
        {
            match balance_of(&self.coefficients[i], x, self.stock[i]) {
                Some(v) => {
                    values.push(v);
                },
                None => {
                    return Err(Error::ResolutionFailed(LpFailure::Numerical));
                },
            }
            i = i + 1;
        }
        let ghost a = amounts(self, x@);
        let ghost kr = |n: int| !spec_is_nil(a[n]) && self.items@[n] is Resource;
        let ghost vr = |n: int| -a[n];
        let ghost kt = |n: int| !spec_is_nil(a[n]) && self.items@[n] is Product && self.targets@[n] is Some;
        let ghost kl = |n: int| !spec_is_nil(a[n]) && self.items@[n] is Product && self.targets@[n] is None;
        let ghost va = |n: int| a[n];
        let ghost ks = |n: int| self.stock@[n] is Some;
        let ghost vs = |n: int| stock_units(self.stock@[n]);
        let mut targets: Vec<(Item, i128)> = Vec::new();
        let mut available: Vec<(Item, i128)> = Vec::new();
        let mut requirements: Vec<(Item, i128)> = Vec::new();
        let mut leftovers: Vec<(Item, i128)> = Vec::new();
        let mut i: usize = 0;
        while i < n
            invariant
                problem_wf(self),
                fits(self, x@),
                n == self.items@.len(),
                a == amounts(self, x@),
                i <= n,
                values@.len() == n,
                forall|k: int| 0 <= k < n ==> #[trigger] values@[k] == a[k],
                ints(requirements@) == select(self.items@.subrange(0, i as int), kr, vr),
                ints(targets@) == select(self.items@.subrange(0, i as int), kt, va),
                ints(leftovers@) == select(self.items@.subrange(0, i as int), kl, va),
                ints(available@) == select(self.items@.subrange(0, i as int), ks, vs),
                kr == (|n: int| !spec_is_nil(a[n]) && self.items@[n] is Resource),
                vr == (|n: int| -a[n]),
                kt == (|n: int| !spec_is_nil(a[n]) && self.items@[n] is Product && self.targets@[n] is Some),
                kl == (|n: int| !spec_is_nil(a[n]) && self.items@[n] is Product && self.targets@[n] is None),
                va == (|n: int| a[n]),
                ks == (|n: int| self.stock@[n] is Some),
                vs == (|n: int| stock_units(self.stock@[n])),
            decreases n - i,
        {
            proof {
                let s1 = self.items@.subrange(0, i + 1);
                assert(s1.drop_last() == self.items@.subrange(0, i as int));
                assert(s1[i as int] == self.items@[i as int]);
            }
            let v = values[i];
            let item = &self.items[i];
            let ghost r0 = requirements@;
            let ghost t0 = targets@;
            let ghost l0 = leftovers@;
            let ghost a0 = available@;
            if is_not_nil(v) {
                match item {
                    Item::Resource(_) => {
                        proof {
                            assert(row_fits(self.coefficients@[i as int]@, x@, stock_units(self.stock@[i as int])));
                        }
                        requirements.push((item.duplicate(), -v));
                    },
                    Item::Product(_) => {
                        if self.targets[i].is_some() {
                            targets.push((item.duplicate(), v));
                        } else {
                            leftovers.push((item.duplicate(), v));
                        }
                    },
                }
            }
            match self.stock[i] {
                Some(q) => {
                    assert(q as i128 * 1_000_000_000 <= 0xffff_ffff * 1_000_000_000) by (nonlinear_arith)
                        requires
                            q <= 0xffff_ffff,
                    ;
                    available.push((item.duplicate(), q as i128 * UNITS_PER_ITEM as i128));
                },
                None => {},
            }
            proof {
                assert(ints(requirements@) =~= select(self.items@.subrange(0, i + 1), kr, vr));
                assert(ints(targets@) =~= select(self.items@.subrange(0, i + 1), kt, va));
                assert(ints(leftovers@) =~= select(self.items@.subrange(0, i + 1), kl, va));
                assert(ints(available@) =~= select(self.items@.subrange(0, i + 1), ks, vs));
            }
            i = i + 1;
        }
        assert(self.items@.subrange(0, n as int) == self.items@);
        assert(ints(requirements@) == requirement_entries(self.items@, a));
        assert(ints(targets@) == target_entries(self.items@, a, self.targets@));
        assert(ints(leftovers@) == leftover_entries(self.items@, a, self.targets@));
        assert(ints(available@) == available_entries(self.items@, self.stock@));
        let mut used: Vec<(Recipe, u64)> = Vec::new();
        let mut r: usize = 0;
        while r < self.recipes.len()
            invariant
                x@.len() == self.recipes@.len(),
                r <= self.recipes@.len(),
                same_entries(used@, used_entries(self.recipes@.subrange(0, r as int), x@)),
            decreases self.recipes@.len() - r,
        {
            proof {
                let s1 = self.recipes@.subrange(0, r + 1);
                assert(s1.drop_last() == self.recipes@.subrange(0, r as int));
            }
            if x[r] >= EPSILON as u64 {
                used.push((self.recipes[r].duplicate(), x[r]));
            }
            r = r + 1;
        }
        assert(self.recipes@.subrange(0, self.recipes@.len() as int) == self.recipes@);
        let ghost used_view = used@;
        let bom = Bom::new(targets, available, requirements, leftovers, used);
        assert(sorted_by_complexity(bom.recipes@, used_view));
        Ok(bom)
    }
}

/// The power that the first `n` entries of `bs` draw: each building's usage times its count.
pub open spec fn power_sum(bs: Seq<(Building, u128)>, n: int) -> int
    decreases n,
{
    if n <= 0 {
        0
    } else {
        power_sum(bs, n - 1) + bs[n - 1].0.spec_power_usage() * bs[n - 1].1
    }
}

impl Bom {
    /// The power that all the buildings draw, in MW; none when a count, a product or a
    /// partial sum leaves the `i128` range.
    pub fn total_power(&self) -> (r: Option<i128>)
        ensures
            match r {
                Some(v) => v == power_sum(self.buildings@, self.buildings@.len() as int),
                None => exists|n: int|
                    0 <= n < self.buildings@.len() && ((#[trigger] self.buildings@[n]).1 > i128::MAX || !in_i128(
                        power_sum(self.buildings@, n + 1),
                    ) || !in_i128(self.buildings@[n].0.spec_power_usage() * self.buildings@[n].1)),
            },
    {
        let mut sum: i128 = 0;
        let mut k: usize = 0;
        while k < self.buildings.len()
            invariant
                k <= self.buildings@.len(),
                sum == power_sum(self.buildings@, k as int),
            decreases self.buildings@.len() - k,
        {
            let power = self.buildings[k].0.power_usage();
            let count = self.buildings[k].1;
            if count > i128::MAX as u128 {
                let ghost n = k as int;
                assert(0 <= n < self.buildings@.len() && (self.buildings@[n].1 > i128::MAX || !in_i128(
                    power_sum(self.buildings@, n + 1)) || !in_i128(self.buildings@[n].0.spec_power_usage() * self.buildings@[n].1)));
                return None;
            }
            let term = match (power as i128).checked_mul(count as i128) {
                Some(t) => t,
                None => {
                    let ghost n = k as int;
                    assert(!in_i128(self.buildings@[n].0.spec_power_usage() * self.buildings@[n].1));
                    assert(0 <= n < self.buildings@.len() && (self.buildings@[n].1 > i128::MAX || !in_i128(
                        power_sum(self.buildings@, n + 1)) || !in_i128(self.buildings@[n].0.spec_power_usage() * self.buildings@[n].1)));
                    return None;
                },
            };
            sum = match sum.checked_add(term) {
                Some(v) => v,
                None => {
                    assert(!in_i128(power_sum(self.buildings@, k + 1)));
                    return None;
                },
            };
            k = k + 1;
        }
        Some(sum)
    }
}

/// The balance under `x` keeps to constraint `c` up to `tol` units.
pub open spec fn meets(p: &Problem, x: Seq<u64>, c: Constraint, tol: int) -> bool {
    let e = balance(p, x, c.item as int);
    let b = c.bound * UNITS_PER_ITEM;
    match c.relation {
        Relation::AtMost => e <= b + tol,
        Relation::AtLeast => e >= b - tol,
        Relation::Exactly => b - tol <= e <= b + tol,
    }
}

/// `x` keeps to every constraint of `p` up to `tol` units.
pub open spec fn satisfies(p: &Problem, x: Seq<u64>, tol: int) -> bool {
    forall|c: int| 0 <= c < p.constraints@.len() ==> meets(p, x, #[trigger] p.constraints@[c], tol)
}

/// How far, in units, a balance may miss a constraint: just under a millionth of an item.
pub const TOLERANCE: i128 = 999;

/// Every constraint names an item of the problem.
pub open spec fn constraints_valid(p: &Problem) -> bool {
    forall|c: int| 0 <= c < p.constraints@.len() ==> (#[trigger] p.constraints@[c]).item < p.items@.len()
}

impl Problem {
    /// Whether the runs `x` keep to every constraint up to `TOLERANCE` units.
    pub fn meets_constraints(&self, x: &Vec<u64>) -> (r: bool)
        requires
            problem_wf(self),
            x@.len() == self.recipes@.len(),
            fits(self, x@),
        ensures
            r == (constraints_valid(self) && satisfies(self, x@, TOLERANCE as int)),
    {
        let mut c: usize = 0;
        while c < self.constraints.len()
            invariant
                problem_wf(self),
                x@.len() == self.recipes@.len(),
                fits(self, x@),
                c <= self.constraints@.len(),
                forall|k: int| 0 <= k < c ==> (#[trigger] self.constraints@[k]).item < self.items@.len()
                    && meets(self, x@, self.constraints@[k], TOLERANCE as int),
            decreases self.constraints@.len() - c,
        {
            let k = self.constraints[c];
            if k.item >= self.items.len() {
                return false;
            }
            let e = match balance_of(&self.coefficients[k.item], x, self.stock[k.item]) {
                Some(e) => e,
                None => {
                    assert(row_fits(self.coefficients@[k.item as int]@, x@, stock_units(self.stock@[k.item as int])));
                    return false;
                },
            };
            let b = k.bound as i128 * UNITS_PER_ITEM as i128;
            let ok = match k.relation {
                Relation::AtMost => e <= b + TOLERANCE,
                Relation::AtLeast => e >= b - TOLERANCE,
                Relation::Exactly => b - TOLERANCE <= e && e <= b + TOLERANCE,
            };
            if !ok {
                return false;
            }
            c = c + 1;
        }
        true
    }

    /// The bill of materials for runs `x`, once they are seen to keep to every
    /// constraint up to `TOLERANCE` units; fails with `Numerical` otherwise, or when a
    /// balance does not fit in an `i128`.
    pub fn checked_bom(&self, x: &Vec<u64>) -> (r: Result<Bom, Error>)
        requires
            problem_wf(self),
            x@.len() == self.recipes@.len(),
        ensures
            r is Ok <==> fits(self, x@) && constraints_valid(self) && satisfies(self, x@, TOLERANCE as int),
            match r {
                Ok(b) => bom_of(self, x@, &b),
                Err(e) => e == Error::ResolutionFailed(LpFailure::Numerical),
            },
    {
        match self.create_bom(x) {
            Ok(b) => {
                if self.meets_constraints(x) {
                    Ok(b)
                } else {
                    Err(Error::ResolutionFailed(LpFailure::Numerical))
                }
            },
            Err(e) => Err(e),
        }
    }
}

} // verus!
