use vstd::prelude::*;

use crate::bom::{
    TOLERANCE, meets, satisfies, amounts, balance, bom_of, partial, stock_units, ints, leftover_entries, problem_wf, recipes_of, requirement_entries,
    same_entries, select, sorted_by_complexity, spec_is_nil, target_entries, used_entries, Bom,
    EPSILON, UNITS_PER_ITEM,
};
use crate::book::distinct_item_ids;
use crate::complexity::{is_stable_order, item_depths_ok, lemma_stable_order_sorted, recipe_depth};
use crate::item::Item;
use crate::problem::{all_constraints, item_constraints, net_quantity, poses, Constraint, Problem, Relation};
use crate::problem_input::{entry_for, ProblemInput};
use crate::recipe::Recipe;

verus! {

/// The amount of the last entry for the item with id `id`, 0 if none.
pub open spec fn amount_in(v: Seq<(Item, int)>, id: Seq<char>) -> int
    decreases v.len(),
{
    if v.len() == 0 {
        0
    } else if v.last().0.spec_id() == id {
        v.last().1
    } else {
        amount_in(v.drop_last(), id)
    }
}

proof fn lemma_select_contains(items: Seq<Item>, keep: spec_fn(int) -> bool, value: spec_fn(int) -> int, i: int)
    requires
        0 <= i < items.len(),
        keep(i),
    ensures
        select(items, keep, value).contains((items[i], value(i))),
    decreases items.len(),
{
    let n = items.len() - 1;
    let prev = select(items.drop_last(), keep, value);
    if i < n {
        lemma_select_contains(items.drop_last(), keep, value, i);
        let j = choose|j: int| 0 <= j < prev.len() && prev[j] == (items[i], value(i));
        if keep(n) {
            assert(prev.push((items[n], value(n)))[j] == prev[j]);
        }
    } else {
        assert(prev.push((items[n], value(n))).last() == (items[i], value(i)));
    }
}

proof fn lemma_select_from(items: Seq<Item>, keep: spec_fn(int) -> bool, value: spec_fn(int) -> int, j: int)
    requires
        0 <= j < select(items, keep, value).len(),
    ensures
        exists|n: int|
            0 <= n < items.len() && keep(n) && select(items, keep, value)[j] == (items[n], value(n)),
    decreases items.len(),
{
    let n = items.len() - 1;
    let prev = select(items.drop_last(), keep, value);
    if j < prev.len() {
        lemma_select_from(items.drop_last(), keep, value, j);
        let m = choose|m: int| 0 <= m < items.drop_last().len() && keep(m) && prev[j] == (items.drop_last()[m], value(m));
        if keep(n) {
            assert(prev.push((items[n], value(n)))[j] == prev[j]);
        }
        assert(items.drop_last()[m] == items[m]);
    }
}

proof fn lemma_select_absent(items: Seq<Item>, keep: spec_fn(int) -> bool, value: spec_fn(int) -> int, id: Seq<char>)
    requires
        forall|n: int| 0 <= n < items.len() ==> (#[trigger] items[n]).spec_id() != id,
    ensures
        amount_in(select(items, keep, value), id) == 0,
    decreases items.len(),
{
    if items.len() > 0 {
        let n = items.len() - 1;
        assert forall|m: int| 0 <= m < items.drop_last().len() implies (#[trigger] items.drop_last()[m]).spec_id() != id by {
            assert(items.drop_last()[m] == items[m]);
        }
        lemma_select_absent(items.drop_last(), keep, value, id);
        let prev = select(items.drop_last(), keep, value);
        if keep(n) {
            assert(prev.push((items[n], value(n))).drop_last() == prev);
        }
    }
}

proof fn lemma_select_amount(items: Seq<Item>, keep: spec_fn(int) -> bool, value: spec_fn(int) -> int, i: int)
    requires
        distinct_item_ids(items),
        0 <= i < items.len(),
    ensures
        amount_in(select(items, keep, value), items[i].spec_id()) == if keep(i) {
            value(i)
        } else {
            0
        },
    decreases items.len(),
{
    let n = items.len() - 1;
    let id = items[i].spec_id();
    let prev = select(items.drop_last(), keep, value);
    let d = items.drop_last();
    assert forall|a: int, b: int| 0 <= a < b < d.len() implies (#[trigger] d[a]).spec_id() != (#[trigger] d[b]).spec_id() by {
        assert(d[a] == items[a] && d[b] == items[b]);
    }
    if i < n {
        lemma_select_amount(d, keep, value, i);
        assert(d[i] == items[i]);
        assert(items[n].spec_id() != id);
        if keep(n) {
            assert(prev.push((items[n], value(n))).drop_last() == prev);
        }
    } else {
        if !keep(n) {
            assert forall|m: int| 0 <= m < d.len() implies (#[trigger] d[m]).spec_id() != id by {
                assert(d[m] == items[m]);
            }
            lemma_select_absent(d, keep, value, id);
        }
    }
}

proof fn lemma_constraint_present(items: Seq<Item>, targets: Seq<Option<u32>>, i: int, k: int)
    requires
        0 <= i < items.len(),
        0 <= k < item_constraints(i, items[i], targets[i]).len(),
    ensures
        all_constraints(items, targets).contains(item_constraints(i, items[i], targets[i])[k]),
    decreases items.len(),
{
    let n = items.len() - 1;
    let prev = all_constraints(items.drop_last(), targets);
    let mine = item_constraints(n, items[n], targets[n]);
    if i < n {
        assert(items.drop_last()[i] == items[i]);
        lemma_constraint_present(items.drop_last(), targets, i, k);
        let j = choose|j: int| 0 <= j < prev.len() && prev[j] == item_constraints(i, items[i], targets[i])[k];
        assert((prev + mine)[j] == prev[j]);
    } else {
        assert((prev + mine)[prev.len() + k] == mine[k]);
    }
}

proof fn lemma_item_constraints(i: int, item: Item, target: Option<u32>)
    ensures
        item_constraints(i, item, target).len() >= 1,
        item is Resource ==> item_constraints(i, item, target)[0] == (Constraint {
            item: i as usize,
            relation: Relation::AtMost,
            bound: 0,
        }),
        item is Resource && item.spec_cap() > 0 ==> item_constraints(i, item, target).len() == 2
            && item_constraints(i, item, target)[1] == (Constraint {
            item: i as usize,
            relation: Relation::AtLeast,
            bound: -(item.spec_cap() as int) as i64,
        }),
        item is Product && (target matches Some(t) && t > 0) ==> item_constraints(i, item, target)[0] == (
        Constraint { item: i as usize, relation: Relation::Exactly, bound: target->0 as i64 }),
        item is Product && !(target matches Some(t) && t > 0) ==> item_constraints(i, item, target)[0]
            == (Constraint { item: i as usize, relation: Relation::AtLeast, bound: 0 }),
{
    let c = item_constraints(i, item, target);
    match item {
        Item::Resource(_) => {
            if item.spec_cap() > 0 {
                assert(c[0] == Constraint { item: i as usize, relation: Relation::AtMost, bound: 0 });
                assert(c[1] == Constraint { item: i as usize, relation: Relation::AtLeast, bound: -(item.spec_cap() as int) as i64 });
            } else {
                assert(c[0] == Constraint { item: i as usize, relation: Relation::AtMost, bound: 0 });
            }
        },
        Item::Product(_) => {
            match target {
                Some(t) => {
                    if t > 0 {
                        assert(c[0] == Constraint { item: i as usize, relation: Relation::Exactly, bound: t as i64 });
                    } else {
                        assert(c[0] == Constraint { item: i as usize, relation: Relation::AtLeast, bound: 0 });
                    }
                },
                None => {
                    assert(c[0] == Constraint { item: i as usize, relation: Relation::AtLeast, bound: 0 });
                },
            }
        },
    }
}

proof fn lemma_meets_item(p: &Problem, x: Seq<u64>, tol: int, i: int, k: int)
    requires
        p.constraints@ == all_constraints(p.items@, p.targets@),
        satisfies(p, x, tol),
        0 <= i < p.items@.len(),
        0 <= k < item_constraints(i, p.items@[i], p.targets@[i]).len(),
    ensures
        meets(p, x, item_constraints(i, p.items@[i], p.targets@[i])[k], tol),
        item_constraints(i, p.items@[i], p.targets@[i])[k].item == i,
{
    assert(p.items.len() == p.items@.len());
    lemma_item_constraints(i, p.items@[i], p.targets@[i]);
    lemma_constraint_present(p.items@, p.targets@, i, k);
    let c = item_constraints(i, p.items@[i], p.targets@[i])[k];
    let j = choose|j: int| 0 <= j < p.constraints@.len() && p.constraints@[j] == c;
    assert(meets(p, x, p.constraints@[j], tol));
}

/// A product asked for at a positive rate `t` is delivered: the bill of materials
/// lists it among its targets within a millionth of an item per minute of `t`, for
/// runs that keep to the constraints up to less than that.
pub proof fn law_targets_met(p: &Problem, x: Seq<u64>, b: &Bom, tol: int, i: int)
    requires
        problem_wf(p),
        p.constraints@ == all_constraints(p.items@, p.targets@),
        bom_of(p, x, b),
        satisfies(p, x, tol),
        0 <= tol < EPSILON,
        0 <= i < p.items@.len(),
        p.items@[i] is Product,
        p.targets@[i] matches Some(t) && t > 0,
    ensures
        exists|j: int|
            0 <= j < b.targets@.len() && b.targets@[j].0 == p.items@[i] && -EPSILON < b.targets@[j].1
                - p.targets@[i]->0 * UNITS_PER_ITEM < EPSILON,
{
    let t = p.targets@[i]->0;
    lemma_item_constraints(i, p.items@[i], p.targets@[i]);
    lemma_meets_item(p, x, tol, i, 0);
    let a = amounts(p, x);
    assert(a[i] == balance(p, x, i));
    assert(balance(p, x, i) >= t * UNITS_PER_ITEM - tol);
    assert(t * UNITS_PER_ITEM >= UNITS_PER_ITEM);
    let items = p.items@;
    let keep = |n: int| !spec_is_nil(a[n]) && items[n] is Product && p.targets@[n] is Some;
    let value = |n: int| a[n];
    lemma_select_contains(items, keep, value, i);
    let v = ints(b.targets@);
    let j = choose|j: int| 0 <= j < v.len() && v[j] == (items[i], value(i));
    assert(v[j] == (b.targets@[j].0, b.targets@[j].1 as int));
}

/// Every item balances: the recipes' net output and what is at hand, less what is
/// delivered and left over, plus what is extracted, is nil.
pub proof fn law_balance(p: &Problem, x: Seq<u64>, b: &Bom, i: int)
    requires
        problem_wf(p),
        distinct_item_ids(p.items@),
        bom_of(p, x, b),
        0 <= i < p.items@.len(),
    ensures
        spec_is_nil(
            balance(p, x, i) - amount_in(ints(b.targets@), p.items@[i].spec_id()) - amount_in(
                ints(b.leftovers@),
                p.items@[i].spec_id(),
            ) + amount_in(ints(b.requirements@), p.items@[i].spec_id()),
        ),
{
    let a = amounts(p, x);
    let items = p.items@;
    assert(a[i] == balance(p, x, i));
    lemma_select_amount(items, |n: int| !spec_is_nil(a[n]) && items[n] is Resource, |n: int| -a[n], i);
    lemma_select_amount(items, |n: int| !spec_is_nil(a[n]) && items[n] is Product && p.targets@[n] is Some, |n: int| a[n], i);
    lemma_select_amount(items, |n: int| !spec_is_nil(a[n]) && items[n] is Product && p.targets@[n] is None, |n: int| a[n], i);
}

/// What is extracted of a resource with known nodes stays within its cap, for runs
/// that keep to the constraints up to `tol` units.
pub proof fn law_caps_respected(p: &Problem, x: Seq<u64>, b: &Bom, tol: int, i: int)
    requires
        problem_wf(p),
        distinct_item_ids(p.items@),
        p.constraints@ == all_constraints(p.items@, p.targets@),
        bom_of(p, x, b),
        satisfies(p, x, tol),
        0 <= tol,
        0 <= i < p.items@.len(),
        p.items@[i] is Resource,
        p.items@[i].spec_cap() > 0,
    ensures
        amount_in(ints(b.requirements@), p.items@[i].spec_id()) <= p.items@[i].spec_cap() * UNITS_PER_ITEM
            + tol,
{
    let a = amounts(p, x);
    let items = p.items@;
    assert(a[i] == balance(p, x, i));
    lemma_item_constraints(i, p.items@[i], p.targets@[i]);
    lemma_meets_item(p, x, tol, i, 1);
    crate::problem::lemma_cap_bound(items[i]);
    assert(balance(p, x, i) >= -(items[i].spec_cap() * UNITS_PER_ITEM) - tol);
    lemma_select_amount(items, |n: int| !spec_is_nil(a[n]) && items[n] is Resource, |n: int| -a[n], i);
}

/// Every amount that the bill of materials lists as extracted, delivered or left over
/// is positive, for runs that keep to the constraints up to less than a millionth.
pub proof fn law_amounts_positive(p: &Problem, x: Seq<u64>, b: &Bom, tol: int)
    requires
        problem_wf(p),
        p.constraints@ == all_constraints(p.items@, p.targets@),
        bom_of(p, x, b),
        satisfies(p, x, tol),
        0 <= tol < EPSILON,
    ensures
        forall|j: int| 0 <= j < b.requirements@.len() ==> (#[trigger] b.requirements@[j]).1 > 0,
        forall|j: int| 0 <= j < b.targets@.len() ==> (#[trigger] b.targets@[j]).1 > 0,
        forall|j: int| 0 <= j < b.leftovers@.len() ==> (#[trigger] b.leftovers@[j]).1 > 0,
{
    let a = amounts(p, x);
    let items = p.items@;
    let kr = |n: int| !spec_is_nil(a[n]) && items[n] is Resource;
    let kt = |n: int| !spec_is_nil(a[n]) && items[n] is Product && p.targets@[n] is Some;
    let kl = |n: int| !spec_is_nil(a[n]) && items[n] is Product && p.targets@[n] is None;
    assert forall|j: int| 0 <= j < b.requirements@.len() implies (#[trigger] b.requirements@[j]).1 > 0 by {
        assert(ints(b.requirements@)[j].1 == b.requirements@[j].1);
        lemma_select_from(items, kr, |n: int| -a[n], j);
        let n = choose|n: int| 0 <= n < items.len() && kr(n) && select(items, kr, |n: int| -a[n])[j] == (items[n], -a[n]);
        assert(a[n] == balance(p, x, n));
        lemma_item_constraints(n, items[n], p.targets@[n]);
        lemma_meets_item(p, x, tol, n, 0);
        assert(balance(p, x, n) <= tol);
    }
    assert forall|j: int| 0 <= j < b.targets@.len() implies (#[trigger] b.targets@[j]).1 > 0 by {
        assert(ints(b.targets@)[j].1 == b.targets@[j].1);
        lemma_select_from(items, kt, |n: int| a[n], j);
        let n = choose|n: int| 0 <= n < items.len() && kt(n) && select(items, kt, |n: int| a[n])[j] == (items[n], a[n]);
        assert(a[n] == balance(p, x, n));
        lemma_item_constraints(n, items[n], p.targets@[n]);
        lemma_meets_item(p, x, tol, n, 0);
        assert(balance(p, x, n) >= -tol);
    }
    assert forall|j: int| 0 <= j < b.leftovers@.len() implies (#[trigger] b.leftovers@[j]).1 > 0 by {
        assert(ints(b.leftovers@)[j].1 == b.leftovers@[j].1);
        lemma_select_from(items, kl, |n: int| a[n], j);
        let n = choose|n: int| 0 <= n < items.len() && kl(n) && select(items, kl, |n: int| a[n])[j] == (items[n], a[n]);
        assert(a[n] == balance(p, x, n));
        lemma_meets_item(p, x, tol, n, 0);
    }
}

proof fn lemma_used_not_nil(rs: Seq<Recipe>, x: Seq<u64>, j: int)
    requires
        0 <= j < used_entries(rs, x).len(),
    ensures
        used_entries(rs, x)[j].1 >= EPSILON,
    decreases rs.len(),
{
    let n = rs.len() - 1;
    let prev = used_entries(rs.drop_last(), x);
    if j < prev.len() {
        lemma_used_not_nil(rs.drop_last(), x, j);
        if x[n] >= EPSILON {
            assert(prev.push((rs[n], x[n]))[j] == prev[j]);
        }
    }
}

/// No recipe of the bill of materials runs less than a millionth of a time per minute.
pub proof fn law_no_dust(p: &Problem, x: Seq<u64>, b: &Bom)
    requires
        bom_of(p, x, b),
    ensures
        forall|j: int| 0 <= j < b.recipes@.len() ==> (#[trigger] b.recipes@[j]).1 >= EPSILON,
{
    let used = choose|used: Seq<(Recipe, u64)>|
        same_entries(used, used_entries(p.recipes@, x)) && #[trigger] sorted_by_complexity(b.recipes@, used);
    let (keys, idx, d, ord) = choose|keys: Seq<u64>, idx: Seq<usize>, d: Map<Seq<char>, nat>, ord: Map<Seq<char>, nat>|
        #[trigger] is_stable_order(idx, keys) && #[trigger] item_depths_ok(recipes_of(used), d, ord)
            && crate::complexity::covers(recipes_of(used), d) && keys.len() == used.len() && (forall|r: int|
            0 <= r < used.len() ==> keys[r] == recipe_depth(#[trigger] used[r].0, d)) && b.recipes@.len()
            == idx.len() && forall|j: int|
            0 <= j < b.recipes@.len() ==> (#[trigger] b.recipes@[j]).0.same_as(&used[idx[j] as int].0)
                && b.recipes@[j].1 == used[idx[j] as int].1;
    assert forall|j: int| 0 <= j < b.recipes@.len() implies (#[trigger] b.recipes@[j]).1 >= EPSILON by {
        let k = idx[j] as int;
        assert(b.recipes@[j].1 == used[k].1);
        assert(used[k].1 == used_entries(p.recipes@, x)[k].1);
        lemma_used_not_nil(p.recipes@, x, k);
    }
}

/// The recipes of the bill of materials come in non-decreasing order of complexity.
pub proof fn law_complexity_order(p: &Problem, x: Seq<u64>, b: &Bom)
    requires
        bom_of(p, x, b),
    ensures
        exists|used: Seq<(Recipe, u64)>, d: Map<Seq<char>, nat>, ord: Map<Seq<char>, nat>|
            same_entries(used, used_entries(p.recipes@, x)) && #[trigger] item_depths_ok(recipes_of(used), d, ord)
                && forall|j1: int, j2: int|
                0 <= j1 <= j2 < b.recipes@.len() ==> recipe_depth(#[trigger] b.recipes@[j1].0, d)
                    <= recipe_depth(#[trigger] b.recipes@[j2].0, d),
{
    let used = choose|used: Seq<(Recipe, u64)>|
        same_entries(used, used_entries(p.recipes@, x)) && #[trigger] sorted_by_complexity(b.recipes@, used);
    let (keys, idx, d, ord) = choose|keys: Seq<u64>, idx: Seq<usize>, d: Map<Seq<char>, nat>, ord: Map<Seq<char>, nat>|
        #[trigger] is_stable_order(idx, keys) && #[trigger] item_depths_ok(recipes_of(used), d, ord)
            && crate::complexity::covers(recipes_of(used), d) && keys.len() == used.len() && (forall|r: int|
            0 <= r < used.len() ==> keys[r] == recipe_depth(#[trigger] used[r].0, d)) && b.recipes@.len()
            == idx.len() && forall|j: int|
            0 <= j < b.recipes@.len() ==> (#[trigger] b.recipes@[j]).0.same_as(&used[idx[j] as int].0)
                && b.recipes@[j].1 == used[idx[j] as int].1;
    assert forall|j1: int, j2: int| 0 <= j1 <= j2 < b.recipes@.len() implies recipe_depth(
        #[trigger] b.recipes@[j1].0, d) <= recipe_depth(#[trigger] b.recipes@[j2].0, d) by {
        lemma_stable_order_sorted(idx, keys, j1, j2);
        let k1 = idx[j1] as int;
        let k2 = idx[j2] as int;
        assert(b.recipes@[j1].0.inputs@ == used[k1].0.inputs@);
        assert(b.recipes@[j2].0.inputs@ == used[k2].0.inputs@);
        assert(keys[k1] == recipe_depth(used[k1].0, d));
        assert(keys[k2] == recipe_depth(used[k2].0, d));
    }
}

/// `sum over r < n of x[r] * (what one run of recipes[r] adds to the item with id `id`)`.
pub open spec fn net_flow(recipes: Seq<Recipe>, x: Seq<u64>, id: Seq<char>, n: int) -> int
    decreases n,
{
    if n <= 0 {
        0
    } else {
        net_flow(recipes, x, id, n - 1) + x[n - 1] * net_quantity(recipes[n - 1], id)
    }
}

/// An item's balance in the linear program is the net output of the recipes at runs
/// `x`, in units, plus what is at hand of it.
pub proof fn lemma_balance_is_net_flow(
    p: &Problem,
    input: ProblemInput,
    recipes: Seq<Recipe>,
    catalog: Seq<Item>,
    x: Seq<u64>,
    i: int,
)
    requires
        poses(*p, input, recipes, catalog),
        x.len() == recipes.len(),
        0 <= i < p.items@.len(),
    ensures
        balance(p, x, i) == net_flow(recipes, x, p.items@[i].spec_id(), recipes.len() as int) + stock_units(
            entry_for(input.available_items@, p.items@[i].spec_id()),
        ),
{
    let id = p.items@[i].spec_id();
    let c = p.coefficients@[i]@;
    assert forall|n: int| 0 <= n <= recipes.len() implies #[trigger] partial(c, x, n) == net_flow(recipes, x, id, n) by {
        lemma_partial_is_net_flow(p, input, recipes, catalog, x, i, n);
    }
}

proof fn lemma_partial_is_net_flow(
    p: &Problem,
    input: ProblemInput,
    recipes: Seq<Recipe>,
    catalog: Seq<Item>,
    x: Seq<u64>,
    i: int,
    n: int,
)
    requires
        poses(*p, input, recipes, catalog),
        x.len() == recipes.len(),
        0 <= i < p.items@.len(),
        0 <= n <= recipes.len(),
    ensures
        partial(p.coefficients@[i]@, x, n) == net_flow(recipes, x, p.items@[i].spec_id(), n),
    decreases n,
{
    if n > 0 {
        lemma_partial_is_net_flow(p, input, recipes, catalog, x, i, n - 1);
        assert(p.coefficients@[i]@[n - 1] == net_quantity(recipes[n - 1], p.items@[i].spec_id()));
        let c = p.coefficients@[i]@[n - 1];
        assert(c * x[n - 1] == x[n - 1] * c) by (nonlinear_arith);
    }
}

/// A bill that `checked_bom` accepts for a posed problem delivers every product asked
/// for at a positive rate within a millionth of it, keeps every capped resource within
/// its cap, and lists only positive amounts.
pub proof fn law_checked_bill(p: &Problem, input: ProblemInput, recipes: Seq<Recipe>, catalog: Seq<Item>, x: Seq<u64>, b: &Bom)
    requires
        poses(*p, input, recipes, catalog),
        crate::bom::problem_wf(p),
        satisfies(p, x, TOLERANCE as int),
        bom_of(p, x, b),
    ensures
        forall|i: int|
            0 <= i < p.items@.len() && (#[trigger] p.items@[i]) is Product && (p.targets@[i] matches Some(t) && t > 0)
                ==> exists|j: int|
                0 <= j < b.targets@.len() && b.targets@[j].0 == p.items@[i] && -EPSILON < b.targets@[j].1
                    - p.targets@[i]->0 * UNITS_PER_ITEM < EPSILON,
        forall|i: int|
            0 <= i < p.items@.len() && (#[trigger] p.items@[i]) is Resource && p.items@[i].spec_cap() > 0
                ==> amount_in(ints(b.requirements@), p.items@[i].spec_id()) <= p.items@[i].spec_cap()
                * UNITS_PER_ITEM + TOLERANCE,
        forall|j: int| 0 <= j < b.requirements@.len() ==> (#[trigger] b.requirements@[j]).1 > 0,
        forall|j: int| 0 <= j < b.targets@.len() ==> (#[trigger] b.targets@[j]).1 > 0,
        forall|j: int| 0 <= j < b.leftovers@.len() ==> (#[trigger] b.leftovers@[j]).1 > 0,
{
    assert forall|i: int|
        0 <= i < p.items@.len() && (#[trigger] p.items@[i]) is Product && (p.targets@[i] matches Some(t) && t > 0)
            implies exists|j: int|
            0 <= j < b.targets@.len() && b.targets@[j].0 == p.items@[i] && -EPSILON < b.targets@[j].1
                - p.targets@[i]->0 * UNITS_PER_ITEM < EPSILON by {
        law_targets_met(p, x, b, TOLERANCE as int, i);
    }
    assert forall|i: int|
        0 <= i < p.items@.len() && (#[trigger] p.items@[i]) is Resource && p.items@[i].spec_cap() > 0
            implies amount_in(ints(b.requirements@), p.items@[i].spec_id()) <= p.items@[i].spec_cap()
            * UNITS_PER_ITEM + TOLERANCE by {
        law_caps_respected(p, x, b, TOLERANCE as int, i);
    }
    law_amounts_positive(p, x, b, TOLERANCE as int);
}

} // verus!
