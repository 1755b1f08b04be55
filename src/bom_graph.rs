use vstd::prelude::*;

use crate::bom::{in_i128, is_nil, is_not_nil, recipes_of, spec_is_nil, Bom};
use crate::book::{has_id, involved_items, item_of_some};
use crate::error::{Error, LpFailure};
use crate::item::Item;
use crate::problem::quantity_of;
use crate::reactant::Reactant;
use crate::recipe::Recipe;

verus! {

/// The role of an item node in the graph.
#[derive(Clone, Copy, Debug, PartialEq, Eq, Structural)]
pub enum ItemType {
    Intermediate,
    Available,
    Target,
    Requirement,
    LeftOver,
}

/// A node: an item in some role with an amount, or a recipe with its runs per minute.
/// Nodes are told apart by item id and role, or by recipe id.
pub enum Node {
    Item(Item, i128, ItemType),
    Recipe(Recipe, u64),
}

/// One end of an edge of an item's plan: its node in some role, or the recipes
/// that use it, or those that produce it.
#[derive(Clone, Copy, Debug, PartialEq, Eq, Structural)]
pub enum End {
    Node(ItemType),
    Using,
    Producing,
}

/// The nodes of a bill of materials and the edges between them, by node index.
pub struct Graph {
    pub nodes: Vec<Node>,
    pub edges: Vec<(usize, usize)>,
}

/// How much of an item the recipes take (`used`) and give (`produced`), with what is
/// at hand, delivered and left over of it, all in units.
#[derive(Clone, Copy, Debug, PartialEq, Eq)]
pub struct Flow {
    pub used: i128,
    pub produced: i128,
    pub available: i128,
    pub target: i128,
    pub leftover: i128,
}

/// The largest amount, either way, that an item's flow may reach in the graph (2^125 units).
pub const FLOW_BOUND: i128 = 0x2000_0000_0000_0000_0000_0000_0000_0000;

/// Each amount of the flow lies within `FLOW_BOUND` either way.
pub open spec fn flow_ok(f: Flow) -> bool {
    &&& -FLOW_BOUND <= f.used <= FLOW_BOUND
    &&& -FLOW_BOUND <= f.produced <= FLOW_BOUND
    &&& -FLOW_BOUND <= f.available <= FLOW_BOUND
    &&& -FLOW_BOUND <= f.target <= FLOW_BOUND
    &&& -FLOW_BOUND <= f.leftover <= FLOW_BOUND
}

/// The nodes that the builder emits for an item, each with its role and amount.
pub open spec fn plan_nodes(f: Flow) -> Seq<(ItemType, int)> {
    let (u, pr, av, t, l) = (f.used as int, f.produced as int, f.available as int, f.target as int, f.leftover as int);
    let has_t = !spec_is_nil(t);
    let has_av = !spec_is_nil(av);
    let has_l = !spec_is_nil(l);
    if !spec_is_nil(u) && !spec_is_nil(pr) {
        seq![(ItemType::Intermediate, pr + av)]
            + (if has_t { seq![(ItemType::Target, t)] } else { Seq::empty() })
            + (if has_av { seq![(ItemType::Available, av)] } else { Seq::empty() })
            + (if has_l { seq![(ItemType::LeftOver, l)] } else { Seq::empty() })
    } else if !spec_is_nil(u) {
        if spec_is_nil(u - av) {
            seq![(ItemType::Available, av)]
        } else {
            seq![(ItemType::Requirement, u)]
                + (if has_av { seq![(ItemType::Available, av)] } else { Seq::empty() })
        }
    } else {
        let head = if has_t && has_l {
            seq![
                (ItemType::Intermediate, t + l),
                (ItemType::Target, t),
                (ItemType::LeftOver, l),
            ]
        } else if has_t {
            seq![(ItemType::Target, t)]
        } else if has_l {
            seq![(ItemType::LeftOver, l)]
        } else {
            Seq::empty()
        };
        head + (if head.len() > 0 && has_av { seq![(ItemType::Available, av)] } else { Seq::empty() })
    }
}

/// The edges that the builder emits for an item.
pub open spec fn plan_edges(f: Flow) -> Seq<(End, End)> {
    let (u, pr, av, t, l) = (f.used as int, f.produced as int, f.available as int, f.target as int, f.leftover as int);
    let has_t = !spec_is_nil(t);
    let has_av = !spec_is_nil(av);
    let has_l = !spec_is_nil(l);
    if !spec_is_nil(u) && !spec_is_nil(pr) {
        seq![
            (End::Node(ItemType::Intermediate), End::Using),
            (End::Producing, End::Node(ItemType::Intermediate)),
        ]
            + (if has_t { seq![(End::Node(ItemType::Intermediate), End::Node(ItemType::Target))] } else { Seq::empty() })
            + (if has_av { seq![(End::Node(ItemType::Available), End::Node(ItemType::Intermediate))] } else { Seq::empty() })
            + (if has_l { seq![(End::Node(ItemType::Intermediate), End::Node(ItemType::LeftOver))] } else { Seq::empty() })
    } else if !spec_is_nil(u) {
        if spec_is_nil(u - av) {
            seq![(End::Node(ItemType::Available), End::Using)]
        } else {
            (if has_av { seq![(End::Node(ItemType::Available), End::Node(ItemType::Requirement))] } else { Seq::empty() })
                + seq![(End::Node(ItemType::Requirement), End::Using)]
        }
    } else {
        let head = if has_t && has_l {
            Some(ItemType::Intermediate)
        } else if has_t {
            Some(ItemType::Target)
        } else if has_l {
            Some(ItemType::LeftOver)
        } else {
            None
        };
        match head {
            None => Seq::empty(),
            Some(h) => (if has_t && has_l {
                seq![
                    (End::Node(ItemType::Intermediate), End::Node(ItemType::Target)),
                    (End::Node(ItemType::Intermediate), End::Node(ItemType::LeftOver)),
                ]
            } else {
                Seq::empty()
            }) + seq![(End::Producing, End::Node(h))] + (if has_av {
                seq![(End::Node(h), End::Node(ItemType::Available))]
            } else {
                Seq::empty()
            }),
        }
    }
}

/// The nodes for an item under its flow.
pub fn item_plan_nodes(f: Flow) -> (r: Vec<(ItemType, i128)>)
    requires
        flow_ok(f),
    ensures
        r@.map_values(|e: (ItemType, i128)| (e.0, e.1 as int)) == plan_nodes(f),
{
    let mut r: Vec<(ItemType, i128)> = Vec::new();
    let has_t = is_not_nil(f.target);
    let has_av = is_not_nil(f.available);
    let has_l = is_not_nil(f.leftover);
    if is_not_nil(f.used) && is_not_nil(f.produced) {
        r.push((ItemType::Intermediate, f.produced + f.available));
        if has_t {
            r.push((ItemType::Target, f.target));
        }
        if has_av {
            r.push((ItemType::Available, f.available));
        }
        if has_l {
            r.push((ItemType::LeftOver, f.leftover));
        }
    } else if is_not_nil(f.used) {
        if !is_not_nil(f.used - f.available) {
            r.push((ItemType::Available, f.available));
        } else {
            r.push((ItemType::Requirement, f.used));
            if has_av {
                r.push((ItemType::Available, f.available));
            }
        }
    } else {
        if has_t && has_l {
            r.push((ItemType::Intermediate, f.target + f.leftover));
            r.push((ItemType::Target, f.target));
            r.push((ItemType::LeftOver, f.leftover));
        } else if has_t {
            r.push((ItemType::Target, f.target));
        } else if has_l {
            r.push((ItemType::LeftOver, f.leftover));
        }
        if r.len() > 0 && has_av {
            r.push((ItemType::Available, f.available));
        }
    }
    proof {
        assert(r@.map_values(|e: (ItemType, i128)| (e.0, e.1 as int)) =~= plan_nodes(f));
    }
    r
}

/// The edges for an item under its flow.
pub fn item_plan_edges(f: Flow) -> (r: Vec<(End, End)>)
    requires
        flow_ok(f),
    ensures
        r@ == plan_edges(f),
{
    let mut r: Vec<(End, End)> = Vec::new();
    let has_t = is_not_nil(f.target);
    let has_av = is_not_nil(f.available);
    let has_l = is_not_nil(f.leftover);
    if is_not_nil(f.used) && is_not_nil(f.produced) {
        r.push((End::Node(ItemType::Intermediate), End::Using));
        r.push((End::Producing, End::Node(ItemType::Intermediate)));
        if has_t {
            r.push((End::Node(ItemType::Intermediate), End::Node(ItemType::Target)));
        }
        if has_av {
            r.push((End::Node(ItemType::Available), End::Node(ItemType::Intermediate)));
        }
        if has_l {
            r.push((End::Node(ItemType::Intermediate), End::Node(ItemType::LeftOver)));
        }
    } else if is_not_nil(f.used) {
        if !is_not_nil(f.used - f.available) {
            r.push((End::Node(ItemType::Available), End::Using));
        } else {
            if has_av {
                r.push((End::Node(ItemType::Available), End::Node(ItemType::Requirement)));
            }
            r.push((End::Node(ItemType::Requirement), End::Using));
        }
    } else {
        let head = if has_t && has_l {
            Some(ItemType::Intermediate)
        } else if has_t {
            Some(ItemType::Target)
        } else if has_l {
            Some(ItemType::LeftOver)
        } else {
            None
        };
        match head {
            None => {},
            Some(h) => {
                if has_t && has_l {
                    r.push((End::Node(ItemType::Intermediate), End::Node(ItemType::Target)));
                    r.push((End::Node(ItemType::Intermediate), End::Node(ItemType::LeftOver)));
                }
                r.push((End::Producing, End::Node(h)));
                if has_av {
                    r.push((End::Node(h), End::Node(ItemType::Available)));
                }
            },
        }
    }
    proof {
        assert(r@ =~= plan_edges(f));
    }
    r
}

/// Two nodes that the graph counts as one.
pub open spec fn same_key(a: Node, b: Node) -> bool {
    match (a, b) {
        (Node::Item(i1, _, t1), Node::Item(i2, _, t2)) => i1.spec_id() == i2.spec_id() && t1 == t2,
        (Node::Recipe(r1, _), Node::Recipe(r2, _)) => r1.id@ == r2.id@,
        _ => false,
    }
}

pub open spec fn distinct_nodes(nodes: Seq<Node>) -> bool {
    forall|a: int, b: int| 0 <= a < b < nodes.len() ==> !same_key(#[trigger] nodes[a], #[trigger] nodes[b])
}

/// Node `k` is the item with id `id` in role `ty`.
pub open spec fn is_item_node(nodes: Seq<Node>, k: int, id: Seq<char>, ty: ItemType) -> bool {
    0 <= k < nodes.len() && (nodes[k] matches Node::Item(it, _, t) && it.spec_id() == id && t == ty)
}

/// Node `k` is the recipe with id `id`.
pub open spec fn is_recipe_node(nodes: Seq<Node>, k: int, id: Seq<char>) -> bool {
    0 <= k < nodes.len() && (nodes[k] matches Node::Recipe(r, _) && r.id@ == id)
}

pub open spec fn edges_ok(edges: Seq<(usize, usize)>, n: int) -> bool {
    &&& forall|e: int| 0 <= e < edges.len() ==> (#[trigger] edges[e]).0 < n && edges[e].1 < n
    &&& forall|a: int, b: int| 0 <= a < b < edges.len() ==> #[trigger] edges[a] != #[trigger] edges[b]
}

fn find_item_node(nodes: &Vec<Node>, id: &String, ty: ItemType) -> (r: Option<usize>)
    ensures
        match r {
            Some(k) => is_item_node(nodes@, k as int, id@, ty),
            None => forall|k: int| 0 <= k < nodes@.len() ==> !is_item_node(nodes@, k, id@, ty),
        },
{
    let mut k: usize = 0;
    while k < nodes.len()
        invariant
            k <= nodes@.len(),
            forall|j: int| 0 <= j < k ==> !is_item_node(nodes@, j, id@, ty),
        decreases nodes@.len() - k,
    {
        match &nodes[k] {
            Node::Item(it, _, t) => {
                if *t == ty && *it.id_string() == *id {
                    return Some(k);
                }
            },
            Node::Recipe(_, _) => {},
        }
        k = k + 1;
    }
    None
}

fn find_recipe_node(nodes: &Vec<Node>, id: &String) -> (r: Option<usize>)
    ensures
        match r {
            Some(k) => is_recipe_node(nodes@, k as int, id@),
            None => forall|k: int| 0 <= k < nodes@.len() ==> !is_recipe_node(nodes@, k, id@),
        },
{
    let mut k: usize = 0;
    while k < nodes.len()
        invariant
            k <= nodes@.len(),
            forall|j: int| 0 <= j < k ==> !is_recipe_node(nodes@, j, id@),
        decreases nodes@.len() - k,
    {
        match &nodes[k] {
            Node::Recipe(r, _) => {
                if r.id == *id {
                    return Some(k);
                }
            },
            Node::Item(_, _, _) => {},
        }
        k = k + 1;
    }
    None
}

/// Adds the edge unless it is there.
fn add_edge(edges: &mut Vec<(usize, usize)>, a: usize, b: usize, Ghost(n): Ghost<int>)
    requires
        edges_ok(old(edges)@, n),
        a < n,
        b < n,
    ensures
        edges_ok(final(edges)@, n),
        final(edges)@.contains((a, b)),
        forall|e: (usize, usize)| old(edges)@.contains(e) ==> #[trigger] final(edges)@.contains(e),
        forall|e: (usize, usize)| #[trigger] final(edges)@.contains(e) ==> old(edges)@.contains(e) || e == (a, b),
{
    let mut k: usize = 0;
    while k < edges.len()
        invariant
            k <= edges@.len(),
            edges@ == old(edges)@,
            edges_ok(edges@, n),
            forall|j: int| 0 <= j < k ==> edges@[j] != (a, b),
        decreases edges@.len() - k,
    {
        if edges[k].0 == a && edges[k].1 == b {
            assert(edges@[k as int] == (a, b));
            return;
        }
        k = k + 1;
    }
    let ghost before = edges@;
    edges.push((a, b));
    proof {
        assert(edges@[edges@.len() - 1] == (a, b));
        assert forall|e: (usize, usize)| #[trigger] edges@.contains(e) implies before.contains(e) || e == (a, b) by {
            let j = choose|j: int| 0 <= j < edges@.len() && edges@[j] == e;
            if j < before.len() {
                assert(before[j] == e);
            }
        }
        assert forall|e: (usize, usize)| old(edges)@.contains(e) implies #[trigger] edges@.contains(e) by {
            let j = choose|j: int| 0 <= j < old(edges)@.len() && old(edges)@[j] == e;
            assert(edges@[j] == e);
        }
    }
}

/// What the recipes of `rs` take of the item with id `id` per minute, in units.
pub open spec fn used_amount(rs: Seq<(Recipe, u64)>, id: Seq<char>) -> int
    decreases rs.len(),
{
    if rs.len() == 0 {
        0
    } else {
        used_amount(rs.drop_last(), id) + rs.last().1 * quantity_of(rs.last().0.inputs@, id)
    }
}

/// What the recipes of `rs` give of the item with id `id` per minute, in units.
pub open spec fn produced_amount(rs: Seq<(Recipe, u64)>, id: Seq<char>) -> int
    decreases rs.len(),
{
    if rs.len() == 0 {
        0
    } else {
        produced_amount(rs.drop_last(), id) + rs.last().1 * quantity_of(rs.last().0.outputs@, id)
    }
}

/// The amount of the first entry for the item with id `id`, 0 if none.
pub open spec fn lookup(v: Seq<(Item, i128)>, id: Seq<char>) -> int
    decreases v.len(),
{
    if v.len() == 0 {
        0
    } else if v[0].0.spec_id() == id {
        v[0].1 as int
    } else {
        lookup(v.skip(1), id)
    }
}

/// The flow of the item with id `id` through the bill of materials.
pub open spec fn flow_matches(f: Flow, b: &Bom, id: Seq<char>) -> bool {
    &&& f.used == used_amount(b.recipes@, id)
    &&& f.produced == produced_amount(b.recipes@, id)
    &&& f.available == lookup(b.available_items@, id)
    &&& f.target == lookup(b.targets@, id)
    &&& f.leftover == lookup(b.leftovers@, id)
}

fn lookup_amount(v: &Vec<(Item, i128)>, id: &String) -> (r: i128)
    ensures
        r == lookup(v@, id@),
{
    let mut k: usize = 0;
    assert(v@.skip(0) == v@);
    while k < v.len()
        invariant
            k <= v@.len(),
            lookup(v@, id@) == lookup(v@.skip(k as int), id@),
        decreases v@.len() - k,
    {
        assert(v@.skip(k as int).skip(1) == v@.skip(k + 1));
        assert(v@.skip(k as int)[0] == v@[k as int]);
        if *v[k].0.id_string() == *id {
            return v[k].1;
        }
        k = k + 1;
    }
    0
}

/// The sum over the recipes of runs times the quantity of the item on one side, if it
/// stays within `FLOW_BOUND`.
fn side_amount(rs: &Vec<(Recipe, u64)>, id: &String, outputs: bool) -> (r: Option<i128>)
    ensures
        match r {
            Some(v) => v == if outputs { produced_amount(rs@, id@) } else { used_amount(rs@, id@) }
                && -FLOW_BOUND <= v <= FLOW_BOUND,
            None => !(-FLOW_BOUND <= (if outputs { produced_amount(rs@, id@) } else { used_amount(rs@, id@) })
                <= FLOW_BOUND),
        },
{
    let mut sum: i128 = 0;
    let mut j: usize = 0;
    while j < rs.len()
        invariant
            j <= rs@.len(),
            sum == if outputs { produced_amount(rs@.subrange(0, j as int), id@) } else { used_amount(rs@.subrange(0, j as int), id@) },
            0 <= sum <= FLOW_BOUND,
        decreases rs@.len() - j,
    {
        proof {
            assert(rs@.subrange(0, j + 1).drop_last() == rs@.subrange(0, j as int));
            assert(rs@.subrange(0, j + 1).last() == rs@[j as int]);
        }
        let q = if outputs {
            crate::problem::quantity_in(rs[j].0.outputs.as_slice(), id)
        } else {
            crate::problem::quantity_in(rs[j].0.inputs.as_slice(), id)
        };
        let term = match (rs[j].1 as i128).checked_mul(q) {
            Some(t) => t,
            None => {
                proof {
                    lemma_sides_grow(rs@, id@, j as int, outputs);
                }
                return None;
            },
        };
        assert(term >= 0) by (nonlinear_arith)
            requires
                term == rs[j as int].1 * q,
                q >= 0,
        ;
        if term > FLOW_BOUND - sum {
            proof {
                lemma_sides_grow(rs@, id@, j + 1, outputs);
            }
            return None;
        }
        sum = sum + term;
        j = j + 1;
    }
    assert(rs@.subrange(0, rs@.len() as int) == rs@);
    Some(sum)
}

proof fn lemma_side_nonneg(rs: Seq<(Recipe, u64)>, id: Seq<char>)
    ensures
        used_amount(rs, id) >= 0,
        produced_amount(rs, id) >= 0,
    decreases rs.len(),
{
    if rs.len() > 0 {
        lemma_side_nonneg(rs.drop_last(), id);
        lemma_quantity_nonneg(rs.last().0.inputs@, id);
        lemma_quantity_nonneg(rs.last().0.outputs@, id);
        let x = rs.last().1;
        let qi = quantity_of(rs.last().0.inputs@, id);
        let qo = quantity_of(rs.last().0.outputs@, id);
        assert(x * qi >= 0) by (nonlinear_arith)
            requires
                qi >= 0,
                x >= 0,
        ;
        assert(x * qo >= 0) by (nonlinear_arith)
            requires
                qo >= 0,
                x >= 0,
        ;
    }
}

proof fn lemma_quantity_nonneg(rs: Seq<Reactant>, id: Seq<char>)
    ensures
        quantity_of(rs, id) >= 0,
    decreases rs.len(),
{
    if rs.len() > 0 {
        lemma_quantity_nonneg(rs.drop_last(), id);
    }
}

/// The amounts only grow as recipes are added; past the bound at `j` means past it at the end.
proof fn lemma_sides_grow(rs: Seq<(Recipe, u64)>, id: Seq<char>, j: int, outputs: bool)
    requires
        0 <= j <= rs.len(),
    ensures
        produced_amount(rs.subrange(0, j), id) <= produced_amount(rs, id),
        used_amount(rs.subrange(0, j), id) <= used_amount(rs, id),
        j < rs.len() ==> rs[j].1 * quantity_of(rs[j].0.inputs@, id) + used_amount(rs.subrange(0, j), id)
            <= used_amount(rs, id),
        j < rs.len() ==> rs[j].1 * quantity_of(rs[j].0.outputs@, id) + produced_amount(rs.subrange(0, j), id)
            <= produced_amount(rs, id),
    decreases rs.len() - j,
{
    if j < rs.len() {
        lemma_sides_grow(rs, id, j + 1, outputs);
        let s1 = rs.subrange(0, j + 1);
        assert(s1.drop_last() == rs.subrange(0, j));
        assert(s1.last() == rs[j]);
        let x = rs[j].1;
        let qi = quantity_of(rs[j].0.inputs@, id);
        let qo = quantity_of(rs[j].0.outputs@, id);
        assert(used_amount(s1, id) == used_amount(rs.subrange(0, j), id) + x * qi);
        assert(produced_amount(s1, id) == produced_amount(rs.subrange(0, j), id) + x * qo);
        lemma_quantity_nonneg(rs[j].0.inputs@, id);
        lemma_quantity_nonneg(rs[j].0.outputs@, id);
        assert(x * qi >= 0) by (nonlinear_arith)
            requires
                qi >= 0,
                x >= 0,
        ;
        assert(x * qo >= 0) by (nonlinear_arith)
            requires
                qo >= 0,
                x >= 0,
        ;
    } else {
        assert(rs.subrange(0, j) == rs);
    }
}

/// Node `n` is the item with id `id` in role `ty`, with amount `amount`.
pub open spec fn has_amount(nodes: Seq<Node>, n: int, amount: int) -> bool {
    nodes[n] matches Node::Item(_, a, _) && a as int == amount
}

/// The plan of the item has a node in role `t`.
pub open spec fn plan_has(f: Flow, t: ItemType) -> bool {
    exists|m: int| 0 <= m < plan_nodes(f).len() && (#[trigger] plan_nodes(f)[m]).0 == t
}

/// Some node is the item with id `id` in the role and with the amount of `p`.
pub open spec fn node_drawn(nodes: Seq<Node>, id: Seq<char>, p: (ItemType, int)) -> bool {
    exists|n: int| is_item_node(nodes, n, id, p.0) && has_amount(nodes, n, p.1)
}

/// The edge `e` of the plan of the item with id `id` is drawn, where the plan has
/// nodes in the roles it joins.
pub open spec fn edge_drawn(nodes: Seq<Node>, edges: Seq<(usize, usize)>, rs: Seq<(Recipe, u64)>, id: Seq<char>, f: Flow, e: (End, End)) -> bool {
    match e {
        (End::Node(t1), End::Node(t2)) => plan_has(f, t1) && plan_has(f, t2) ==> exists|n1: int, n2: int|
            is_item_node(nodes, n1, id, t1) && is_item_node(nodes, n2, id, t2) && #[trigger] edges.contains(
                (n1 as usize, n2 as usize),
            ),
        (End::Node(t1), End::Using) => plan_has(f, t1) ==> exists|n1: int|
            is_item_node(nodes, n1, id, t1) && forall|j: int|
                0 <= j < rs.len() && crate::recipe::reactants_use(rs[j].0.inputs@, id) ==> exists|n2: int|
                    is_recipe_node(nodes, n2, (#[trigger] rs[j]).0.id@) && edges.contains((n1 as usize, n2 as usize)),
        (End::Producing, End::Node(t2)) => plan_has(f, t2) ==> exists|n2: int|
            is_item_node(nodes, n2, id, t2) && forall|j: int|
                0 <= j < rs.len() && crate::recipe::reactants_use(rs[j].0.outputs@, id) ==> exists|n1: int|
                    is_recipe_node(nodes, n1, (#[trigger] rs[j]).0.id@) && edges.contains((n1 as usize, n2 as usize)),
        _ => true,
    }
}

/// The graph holds the nodes and edges of the plan for the item with id `id`.
pub open spec fn item_drawn(nodes: Seq<Node>, edges: Seq<(usize, usize)>, rs: Seq<(Recipe, u64)>, id: Seq<char>, f: Flow) -> bool {
    &&& forall|k: int| 0 <= k < plan_nodes(f).len() ==> node_drawn(nodes, id, #[trigger] plan_nodes(f)[k])
    &&& forall|k: int| 0 <= k < plan_edges(f).len() ==> edge_drawn(nodes, edges, rs, id, f, #[trigger] plan_edges(f)[k])
}

proof fn lemma_plan_types_distinct(f: Flow)
    ensures
        forall|a: int, b: int| 0 <= a < b < plan_nodes(f).len() ==> (#[trigger] plan_nodes(f)[a]).0 != (#[trigger] plan_nodes(f)[b]).0,
{
    let p = plan_nodes(f);
    assert forall|a: int, b: int| 0 <= a < b < p.len() implies (#[trigger] p[a]).0 != (#[trigger] p[b]).0 by {}
}

/// The edge joins nodes as the plan of the item at one of its ends asks: two roles of
/// one item, an item and a recipe that takes it, or a recipe that gives an item and it.
pub open spec fn edge_sound(nodes: Seq<Node>, x: (usize, usize), b: &Bom) -> bool {
    let rs = b.recipes@;
    match (nodes[x.0 as int], nodes[x.1 as int]) {
        (Node::Item(i1, _, t1), Node::Item(i2, _, t2)) => i1.spec_id() == i2.spec_id() && exists|f: Flow|
            flow_matches(f, b, i1.spec_id()) && #[trigger] plan_edges(f).contains((End::Node(t1), End::Node(t2))),
        (Node::Item(i1, _, t1), Node::Recipe(r, _)) => (exists|f: Flow|
            flow_matches(f, b, i1.spec_id()) && #[trigger] plan_edges(f).contains((End::Node(t1), End::Using)))
            && exists|j: int|
            0 <= j < rs.len() && (#[trigger] rs[j]).0.id@ == r.id@ && crate::recipe::reactants_use(rs[j].0.inputs@, i1.spec_id()),
        (Node::Recipe(r, _), Node::Item(i2, _, t2)) => (exists|f: Flow|
            flow_matches(f, b, i2.spec_id()) && #[trigger] plan_edges(f).contains((End::Producing, End::Node(t2))))
            && exists|j: int|
            0 <= j < rs.len() && (#[trigger] rs[j]).0.id@ == r.id@ && crate::recipe::reactants_use(rs[j].0.outputs@, i2.spec_id()),
        _ => false,
    }
}

/// Node keys are distinct, edges join existing nodes once each, and every recipe of
/// `rs` has its node.
pub open spec fn graph_inv(nodes: Seq<Node>, edges: Seq<(usize, usize)>, rs: Seq<(Recipe, u64)>) -> bool {
    &&& distinct_nodes(nodes)
    &&& edges_ok(edges, nodes.len() as int)
    &&& forall|j: int| 0 <= j < rs.len() ==> has_recipe_node(nodes, (#[trigger] rs[j]).0.id@)
}

/// Some node is the recipe with id `id`.
pub open spec fn has_recipe_node(nodes: Seq<Node>, id: Seq<char>) -> bool {
    exists|n: int| is_recipe_node(nodes, n, id)
}

/// The nodes of the plan are all in the graph.
pub open spec fn plan_nodes_drawn(nodes: Seq<Node>, id: Seq<char>, f: Flow) -> bool {
    forall|k: int| 0 <= k < plan_nodes(f).len() ==> node_drawn(nodes, id, #[trigger] plan_nodes(f)[k])
}

/// Draws one edge of the plan of the item with id `id`.
fn draw_edge(
    nodes: &Vec<Node>,
    edges: &mut Vec<(usize, usize)>,
    bom: &Bom,
    id: &String,
    Ghost(f): Ghost<Flow>,
    e: (End, End),
)
    requires
        graph_inv(nodes@, old(edges)@, bom.recipes@),
        plan_nodes_drawn(nodes@, id@, f),
        flow_matches(f, bom, id@),
        plan_edges(f).contains(e),
    ensures
        graph_inv(nodes@, final(edges)@, bom.recipes@),
        edge_drawn(nodes@, final(edges)@, bom.recipes@, id@, f, e),
        forall|x: (usize, usize)| old(edges)@.contains(x) ==> #[trigger] final(edges)@.contains(x),
        forall|x: (usize, usize)| #[trigger] final(edges)@.contains(x) ==> old(edges)@.contains(x) || edge_sound(nodes@, x, bom),
{
    let rs = &bom.recipes;
    let ghost n = nodes@.len() as int;
    match e {
        (End::Node(t1), End::Node(t2)) => {
            match (find_item_node(nodes, id, t1), find_item_node(nodes, id, t2)) {
                (Some(n1), Some(n2)) => {
                    add_edge(edges, n1, n2, Ghost(n));
                    assert(is_item_node(nodes@, n1 as int, id@, t1) && is_item_node(nodes@, n2 as int, id@, t2)
                        && edges@.contains(((n1 as int) as usize, (n2 as int) as usize)));
                    assert(edge_sound(nodes@, (n1, n2), bom));
                },
                _ => {
                    proof {
                        if plan_has(f, t1) && plan_has(f, t2) {
                            let m1 = choose|m: int| 0 <= m < plan_nodes(f).len() && (#[trigger] plan_nodes(f)[m]).0 == t1;
                            let m2 = choose|m: int| 0 <= m < plan_nodes(f).len() && (#[trigger] plan_nodes(f)[m]).0 == t2;
                            assert(node_drawn(nodes@, id@, plan_nodes(f)[m1]));
                            assert(node_drawn(nodes@, id@, plan_nodes(f)[m2]));
                        }
                    }
                },
            }
        },
        (End::Node(t1), End::Using) => {
            match find_item_node(nodes, id, t1) {
                Some(n1) => {
                    let mut j: usize = 0;
                    while j < rs.len()
                        invariant
                            graph_inv(nodes@, edges@, rs@),
                            n == nodes@.len(),
                            is_item_node(nodes@, n1 as int, id@, t1),
                            j <= rs@.len(),
                            forall|x: (usize, usize)| old(edges)@.contains(x) ==> #[trigger] edges@.contains(x),
                            forall|x: (usize, usize)| #[trigger] edges@.contains(x) ==> old(edges)@.contains(x) || edge_sound(nodes@, x, bom),
                            rs == &bom.recipes,
                            flow_matches(f, bom, id@),
                            plan_edges(f).contains(e),
                            e == (End::Node(t1), End::Using),
                            forall|t: int|
                                0 <= t < j && crate::recipe::reactants_use(rs@[t].0.inputs@, id@) ==> exists|n2: int|
                                    is_recipe_node(nodes@, n2, (#[trigger] rs@[t]).0.id@) && edges@.contains((n1, n2 as usize)),
                        decreases rs@.len() - j,
                    {
                        if crate::recipe::reactants_contain(rs[j].0.inputs.as_slice(), id) {
                            match find_recipe_node(nodes, &rs[j].0.id) {
                                Some(n2) => {
                                    let ghost before = edges@;
                                    add_edge(edges, n1, n2, Ghost(n));
                                    proof {
                                        assert(edge_sound(nodes@, (n1, n2), bom));
                                        assert forall|t: int|
                                            0 <= t <= j && crate::recipe::reactants_use(rs@[t].0.inputs@, id@) implies exists|m: int|
                                                is_recipe_node(nodes@, m, (#[trigger] rs@[t]).0.id@) && edges@.contains((n1, m as usize)) by {
                                            if t < j {
                                                let m = choose|m: int| is_recipe_node(nodes@, m, (#[trigger] rs@[t]).0.id@) && before.contains((n1, m as usize));
                                            } else {
                                                assert(is_recipe_node(nodes@, n2 as int, rs@[t].0.id@) && edges@.contains((n1, n2)));
                                            }
                                        }
                                    }
                                },
                                None => {
                                    proof {
                                        assert(has_recipe_node(nodes@, rs@[j as int].0.id@));
                                    }
                                },
                            }
                        }
                        j = j + 1;
                    }
                },
                None => {
                    proof {
                        if plan_has(f, t1) {
                            let m1 = choose|m: int| 0 <= m < plan_nodes(f).len() && (#[trigger] plan_nodes(f)[m]).0 == t1;
                            assert(node_drawn(nodes@, id@, plan_nodes(f)[m1]));
                        }
                    }
                },
            }
        },
        (End::Producing, End::Node(t2)) => {
            match find_item_node(nodes, id, t2) {
                Some(n2) => {
                    let mut j: usize = 0;
                    while j < rs.len()
                        invariant
                            graph_inv(nodes@, edges@, rs@),
                            n == nodes@.len(),
                            is_item_node(nodes@, n2 as int, id@, t2),
                            j <= rs@.len(),
                            forall|x: (usize, usize)| old(edges)@.contains(x) ==> #[trigger] edges@.contains(x),
                            forall|x: (usize, usize)| #[trigger] edges@.contains(x) ==> old(edges)@.contains(x) || edge_sound(nodes@, x, bom),
                            rs == &bom.recipes,
                            flow_matches(f, bom, id@),
                            plan_edges(f).contains(e),
                            e == (End::Producing, End::Node(t2)),
                            forall|t: int|
                                0 <= t < j && crate::recipe::reactants_use(rs@[t].0.outputs@, id@) ==> exists|n1: int|
                                    is_recipe_node(nodes@, n1, (#[trigger] rs@[t]).0.id@) && edges@.contains((n1 as usize, n2)),
                        decreases rs@.len() - j,
                    {
                        if crate::recipe::reactants_contain(rs[j].0.outputs.as_slice(), id) {
                            match find_recipe_node(nodes, &rs[j].0.id) {
                                Some(n1) => {
                                    let ghost before = edges@;
                                    add_edge(edges, n1, n2, Ghost(n));
                                    proof {
                                        assert(edge_sound(nodes@, (n1, n2), bom));
                                        assert forall|t: int|
                                            0 <= t <= j && crate::recipe::reactants_use(rs@[t].0.outputs@, id@) implies exists|m: int|
                                                is_recipe_node(nodes@, m, (#[trigger] rs@[t]).0.id@) && edges@.contains((m as usize, n2)) by {
                                            if t < j {
                                                let m = choose|m: int| is_recipe_node(nodes@, m, (#[trigger] rs@[t]).0.id@) && before.contains((m as usize, n2));
                                            } else {
                                                assert(is_recipe_node(nodes@, n1 as int, rs@[t].0.id@) && edges@.contains((n1, n2)));
                                            }
                                        }
                                    }
                                },
                                None => {
                                    proof {
                                        assert(has_recipe_node(nodes@, rs@[j as int].0.id@));
                                    }
                                },
                            }
                        }
                        j = j + 1;
                    }
                },
                None => {
                    proof {
                        if plan_has(f, t2) {
                            let m2 = choose|m: int| 0 <= m < plan_nodes(f).len() && (#[trigger] plan_nodes(f)[m]).0 == t2;
                            assert(node_drawn(nodes@, id@, plan_nodes(f)[m2]));
                        }
                    }
                },
            }
        },
        _ => {},
    }
}

/// Every amount of the item's flow can be held within `FLOW_BOUND`.
pub open spec fn flow_fits(b: &Bom, id: Seq<char>) -> bool {
    &&& -FLOW_BOUND <= used_amount(b.recipes@, id) <= FLOW_BOUND
    &&& -FLOW_BOUND <= produced_amount(b.recipes@, id) <= FLOW_BOUND
    &&& -FLOW_BOUND <= lookup(b.available_items@, id) <= FLOW_BOUND
    &&& -FLOW_BOUND <= lookup(b.targets@, id) <= FLOW_BOUND
    &&& -FLOW_BOUND <= lookup(b.leftovers@, id) <= FLOW_BOUND
}

fn bounded(v: i128) -> (r: Option<i128>)
    ensures
        r == if -FLOW_BOUND <= v <= FLOW_BOUND { Some(v) } else { None::<i128> },
{
    if -FLOW_BOUND <= v && v <= FLOW_BOUND {
        Some(v)
    } else {
        None
    }
}

/// The flow of the item with id `id`, when it fits.
fn flow_of(b: &Bom, id: &String) -> (r: Option<Flow>)
    ensures
        match r {
            Some(f) => flow_matches(f, b, id@) && flow_ok(f),
            None => !flow_fits(b, id@),
        },
{
    let used = match side_amount(&b.recipes, id, false) {
        Some(v) => v,
        None => {
            return None;
        },
    };
    let produced = match side_amount(&b.recipes, id, true) {
        Some(v) => v,
        None => {
            return None;
        },
    };
    let available = match bounded(lookup_amount(&b.available_items, id)) {
        Some(v) => v,
        None => {
            return None;
        },
    };
    let target = match bounded(lookup_amount(&b.targets, id)) {
        Some(v) => v,
        None => {
            return None;
        },
    };
    let leftover = match bounded(lookup_amount(&b.leftovers, id)) {
        Some(v) => v,
        None => {
            return None;
        },
    };
    Some(Flow { used, produced, available, target, leftover })
}

proof fn lemma_edge_persists(
    nodes: Seq<Node>,
    nodes2: Seq<Node>,
    edges: Seq<(usize, usize)>,
    edges2: Seq<(usize, usize)>,
    rs: Seq<(Recipe, u64)>,
    id: Seq<char>,
    f: Flow,
    e: (End, End),
)
    requires
        edge_drawn(nodes, edges, rs, id, f, e),
        nodes2.len() >= nodes.len(),
        nodes2.subrange(0, nodes.len() as int) == nodes,
        forall|x: (usize, usize)| edges.contains(x) ==> #[trigger] edges2.contains(x),
    ensures
        edge_drawn(nodes2, edges2, rs, id, f, e),
{
    assert forall|k: int| 0 <= k < nodes.len() implies nodes2[k] == nodes[k] by {
        assert(nodes2.subrange(0, nodes.len() as int)[k] == nodes2[k]);
    }
    match e {
        (End::Node(t1), End::Node(t2)) => {
            if plan_has(f, t1) && plan_has(f, t2) {
                let (n1, n2) = choose|n1: int, n2: int|
                    is_item_node(nodes, n1, id, t1) && is_item_node(nodes, n2, id, t2) && #[trigger] edges.contains(
                        (n1 as usize, n2 as usize),
                    );
                assert(is_item_node(nodes2, n1, id, t1) && is_item_node(nodes2, n2, id, t2) && edges2.contains((n1 as usize, n2 as usize)));
            }
        },
        (End::Node(t1), End::Using) => {
            if plan_has(f, t1) {
                let n1 = choose|n1: int|
                    is_item_node(nodes, n1, id, t1) && forall|j: int|
                        0 <= j < rs.len() && crate::recipe::reactants_use(rs[j].0.inputs@, id) ==> exists|n2: int|
                            is_recipe_node(nodes, n2, (#[trigger] rs[j]).0.id@) && edges.contains((n1 as usize, n2 as usize));
                assert(is_item_node(nodes2, n1, id, t1));
                assert forall|j: int| 0 <= j < rs.len() && crate::recipe::reactants_use(rs[j].0.inputs@, id) implies exists|n2: int|
                    is_recipe_node(nodes2, n2, (#[trigger] rs[j]).0.id@) && edges2.contains((n1 as usize, n2 as usize)) by {
                    let n2 = choose|n2: int| is_recipe_node(nodes, n2, (#[trigger] rs[j]).0.id@) && edges.contains((n1 as usize, n2 as usize));
                    assert(is_recipe_node(nodes2, n2, rs[j].0.id@));
                }
            }
        },
        (End::Producing, End::Node(t2)) => {
            if plan_has(f, t2) {
                let n2 = choose|n2: int|
                    is_item_node(nodes, n2, id, t2) && forall|j: int|
                        0 <= j < rs.len() && crate::recipe::reactants_use(rs[j].0.outputs@, id) ==> exists|n1: int|
                            is_recipe_node(nodes, n1, (#[trigger] rs[j]).0.id@) && edges.contains((n1 as usize, n2 as usize));
                assert(is_item_node(nodes2, n2, id, t2));
                assert forall|j: int| 0 <= j < rs.len() && crate::recipe::reactants_use(rs[j].0.outputs@, id) implies exists|n1: int|
                    is_recipe_node(nodes2, n1, (#[trigger] rs[j]).0.id@) && edges2.contains((n1 as usize, n2 as usize)) by {
                    let n1 = choose|n1: int| is_recipe_node(nodes, n1, (#[trigger] rs[j]).0.id@) && edges.contains((n1 as usize, n2 as usize));
                    assert(is_recipe_node(nodes2, n1, rs[j].0.id@));
                }
            }
        },
        _ => {},
    }
}

proof fn lemma_drawn_persists(
    nodes: Seq<Node>,
    nodes2: Seq<Node>,
    edges: Seq<(usize, usize)>,
    edges2: Seq<(usize, usize)>,
    rs: Seq<(Recipe, u64)>,
    id: Seq<char>,
    f: Flow,
)
    requires
        item_drawn(nodes, edges, rs, id, f),
        nodes2.len() >= nodes.len(),
        nodes2.subrange(0, nodes.len() as int) == nodes,
        forall|x: (usize, usize)| edges.contains(x) ==> #[trigger] edges2.contains(x),
    ensures
        item_drawn(nodes2, edges2, rs, id, f),
{
    assert forall|k: int| 0 <= k < nodes.len() implies nodes2[k] == nodes[k] by {
        assert(nodes2.subrange(0, nodes.len() as int)[k] == nodes2[k]);
    }
    assert forall|k: int| 0 <= k < plan_nodes(f).len() implies node_drawn(nodes2, id, #[trigger] plan_nodes(f)[k]) by {
        assert(node_drawn(nodes, id, plan_nodes(f)[k]));
        let n = choose|n: int| is_item_node(nodes, n, id, plan_nodes(f)[k].0) && has_amount(nodes, n, plan_nodes(f)[k].1);
        assert(nodes2[n] == nodes[n]);
        assert(is_item_node(nodes2, n, id, plan_nodes(f)[k].0) && has_amount(nodes2, n, plan_nodes(f)[k].1));
    }
    assert forall|k: int| 0 <= k < plan_edges(f).len() implies edge_drawn(nodes2, edges2, rs, id, f, #[trigger] plan_edges(f)[k]) by {
        lemma_edge_persists(nodes, nodes2, edges, edges2, rs, id, f, plan_edges(f)[k]);
    }
}

/// Node `n` is an item node for the item with id `id`.
pub open spec fn item_node_of(nodes: Seq<Node>, n: int, id: Seq<char>) -> bool {
    nodes[n] matches Node::Item(it, _, _) && it.spec_id() == id
}

/// Adds the nodes of the plan of `item`, which has none yet.
fn draw_item_nodes(
    nodes: &mut Vec<Node>,
    edges: &Vec<(usize, usize)>,
    rs: &Vec<(Recipe, u64)>,
    item: &Item,
    f: Flow,
)
    requires
        graph_inv(old(nodes)@, edges@, rs@),
        flow_ok(f),
        forall|n: int| 0 <= n < old(nodes)@.len() ==> !item_node_of(old(nodes)@, n, item.spec_id()),
    ensures
        graph_inv(final(nodes)@, edges@, rs@),
        final(nodes)@.len() >= old(nodes)@.len(),
        final(nodes)@.subrange(0, old(nodes)@.len() as int) == old(nodes)@,
        plan_nodes_drawn(final(nodes)@, item.spec_id(), f),
        forall|n: int| old(nodes)@.len() <= n < final(nodes)@.len() ==> item_node_of(final(nodes)@, n, item.spec_id()),
        forall|n: int|
            old(nodes)@.len() <= n < final(nodes)@.len() ==> (#[trigger] final(nodes)@[n] matches Node::Item(it, a, t)
                && it.spec_id() == item.spec_id() && plan_nodes(f).contains((t, a as int))),
{
    let plan = item_plan_nodes(f);
    let ghost base = nodes@;
    let ghost id = item.spec_id();
    let ghost p = plan_nodes(f);
    proof {
        lemma_plan_types_distinct(f);
        assert(nodes@.subrange(0, base.len() as int) == base);
    }
    let mut q: usize = 0;
    while q < plan.len()
        invariant
            plan@.map_values(|e: (ItemType, i128)| (e.0, e.1 as int)) == p,
            p == plan_nodes(f),
            id == item.spec_id(),
            forall|a: int, b: int| 0 <= a < b < p.len() ==> (#[trigger] p[a]).0 != (#[trigger] p[b]).0,
            forall|n: int| 0 <= n < base.len() ==> !item_node_of(base, n, id),
            graph_inv(nodes@, edges@, rs@),
            q <= plan@.len(),
            nodes@.len() == base.len() + q,
            nodes@.subrange(0, base.len() as int) == base,
            forall|t: int| 0 <= t < q ==> is_item_node(nodes@, base.len() + t, id, p[t].0) && has_amount(nodes@, base.len() + t, p[t].1),
        decreases plan@.len() - q,
    {
        let ghost before = nodes@;
        assert(plan@[q as int].0 == p[q as int].0 && plan@[q as int].1 as int == p[q as int].1);
        nodes.push(Node::Item(item.duplicate(), plan[q].1, plan[q].0));
        proof {
            let nn = nodes@;
            assert forall|k: int| 0 <= k < before.len() implies nn[k] == before[k] by {}
            assert(nn.subrange(0, base.len() as int) =~= base) by {
                assert forall|k: int| 0 <= k < base.len() implies nn.subrange(0, base.len() as int)[k] == base[k] by {
                    assert(before.subrange(0, base.len() as int)[k] == before[k]);
                }
            }
            assert forall|a: int, b: int| 0 <= a < b < nn.len() implies !same_key(#[trigger] nn[a], #[trigger] nn[b]) by {
                if b == before.len() {
                    if a < base.len() {
                        assert(before.subrange(0, base.len() as int)[a] == before[a]);
                        assert(!item_node_of(base, a, id));
                    } else {
                        let t = a - base.len();
                        assert(is_item_node(before, base.len() + t, id, p[t].0));
                    }
                } else {
                    assert(!same_key(before[a], before[b]));
                }
            }
            assert forall|e: int| 0 <= e < edges@.len() implies (#[trigger] edges@[e]).0 < nn.len() && edges@[e].1 < nn.len() by {}
            assert forall|j: int| 0 <= j < rs@.len() implies has_recipe_node(nn, (#[trigger] rs@[j]).0.id@) by {
                assert(has_recipe_node(before, rs@[j].0.id@));
                let n = choose|n: int| is_recipe_node(before, n, rs@[j].0.id@);
                assert(nn[n] == before[n]);
                assert(is_recipe_node(nn, n, rs@[j].0.id@));
            }
            assert forall|t: int| 0 <= t <= q implies is_item_node(nn, base.len() + t, id, p[t].0) && has_amount(nn, base.len() + t, p[t].1) by {
                if t < q {
                    assert(nn[base.len() + t] == before[base.len() + t]);
                }
            }
        }
        q = q + 1;
    }
    proof {
        assert forall|k: int| 0 <= k < p.len() implies node_drawn(nodes@, id, #[trigger] p[k]) by {
            assert(is_item_node(nodes@, base.len() + k, id, p[k].0) && has_amount(nodes@, base.len() + k, p[k].1));
        }
        assert forall|n: int| base.len() <= n < nodes@.len() implies item_node_of(nodes@, n, id) by {
            assert(is_item_node(nodes@, base.len() + (n - base.len()), id, p[n - base.len()].0));
        }
        assert forall|n: int| base.len() <= n < nodes@.len() implies (#[trigger] nodes@[n] matches Node::Item(it, a, t)
            && it.spec_id() == id && p.contains((t, a as int))) by {
            let t = n - base.len();
            assert(is_item_node(nodes@, base.len() + t, id, p[t].0) && has_amount(nodes@, base.len() + t, p[t].1));
            if let Node::Item(it, a, ty) = nodes@[n] {
                assert(p[t] == (ty, a as int));
            }
        }
    }
}

/// The node stands for a recipe of the bill of materials, or for an item in a role
/// and with an amount that the plan of its flow gives.
pub open spec fn node_sound(n: Node, b: &Bom) -> bool {
    match n {
        Node::Item(it, a, t) => exists|f: Flow|
            flow_matches(f, b, it.spec_id()) && #[trigger] plan_nodes(f).contains((t, a as int)),
        Node::Recipe(r, x) => exists|j: int|
            0 <= j < b.recipes@.len() && (#[trigger] b.recipes@[j]).0.id@ == r.id@ && b.recipes@[j].1 == x,
    }
}

/// Some recipe of `rs` takes or gives the item with id `id`.
pub open spec fn reactant_id(rs: Seq<(Recipe, u64)>, id: Seq<char>) -> bool {
    exists|j: int|
        0 <= j < rs.len() && (crate::recipe::reactants_use((#[trigger] rs[j]).0.inputs@, id)
            || crate::recipe::reactants_use(rs[j].0.outputs@, id))
}

/// The item has some flow that fits and the graph holds its plan.
pub open spec fn drawn_for(nodes: Seq<Node>, edges: Seq<(usize, usize)>, b: &Bom, id: Seq<char>) -> bool {
    exists|f: Flow| flow_matches(f, b, id) && flow_ok(f) && #[trigger] item_drawn(nodes, edges, b.recipes@, id, f)
}

impl Graph {
    /// The graph of a bill of materials: a node per recipe id, and for each item that
    /// the recipes take or give, the nodes and edges of its plan. Fails when some
    /// amount of an item's flow lies beyond `FLOW_BOUND`.
    pub fn new(bom: &Bom) -> (r: Result<Graph, Error>)
        ensures
            match r {
                Ok(g) => graph_inv(g.nodes@, g.edges@, bom.recipes@) && (forall|k: int|
                    0 <= k < g.edges@.len() ==> edge_sound(g.nodes@, #[trigger] g.edges@[k], bom)) && (forall|id: Seq<char>|
                    #[trigger] reactant_id(bom.recipes@, id) ==> drawn_for(g.nodes@, g.edges@, bom, id))
                    && forall|n: int| 0 <= n < g.nodes@.len() ==> node_sound(#[trigger] g.nodes@[n], bom),
                Err(e) => e == Error::ResolutionFailed(LpFailure::Numerical) && exists|id: Seq<char>|
                    #[trigger] reactant_id(bom.recipes@, id) && !flow_fits(bom, id),
            },
    {
        let rs = &bom.recipes;
        let mut nodes: Vec<Node> = Vec::new();
        let mut edges: Vec<(usize, usize)> = Vec::new();
        let mut j: usize = 0;
        while j < rs.len()
            invariant
                rs == &bom.recipes,
                j <= rs@.len(),
                edges@.len() == 0,
                distinct_nodes(nodes@),
                forall|n: int| 0 <= n < nodes@.len() ==> (#[trigger] nodes@[n]) is Recipe,
                forall|n: int| 0 <= n < nodes@.len() ==> node_sound(#[trigger] nodes@[n], bom),
                forall|t: int| 0 <= t < j ==> has_recipe_node(nodes@, (#[trigger] rs@[t]).0.id@),
            decreases rs@.len() - j,
        {
            let ghost before = nodes@;
            match find_recipe_node(&nodes, &rs[j].0.id) {
                Some(k) => {
                    assert(is_recipe_node(nodes@, k as int, rs@[j as int].0.id@));
                },
                None => {
                    nodes.push(Node::Recipe(rs[j].0.duplicate(), rs[j].1));
                    proof {
                        let nn = nodes@;
                        assert forall|a: int, b: int| 0 <= a < b < nn.len() implies !same_key(#[trigger] nn[a], #[trigger] nn[b]) by {
                            if b == before.len() {
                                assert(!is_recipe_node(before, a, rs@[j as int].0.id@));
                            } else {
                                assert(!same_key(before[a], before[b]));
                            }
                        }
                        assert forall|n: int| 0 <= n < nn.len() implies node_sound(#[trigger] nn[n], bom) by {
                            if n < before.len() {
                                assert(nn[n] == before[n]);
                            } else {
                                assert(rs@[j as int].0.id@ == rs@[j as int].0.id@);
                            }
                        }
                        assert forall|t: int| 0 <= t <= j implies has_recipe_node(nn, (#[trigger] rs@[t]).0.id@) by {
                            if t < j {
                                assert(has_recipe_node(before, rs@[t].0.id@));
                                let n = choose|n: int| is_recipe_node(before, n, rs@[t].0.id@);
                                assert(nn[n] == before[n]);
                                assert(is_recipe_node(nn, n, rs@[t].0.id@));
                            } else {
                                assert(is_recipe_node(nn, before.len() as int, rs@[t].0.id@));
                            }
                        }
                    }
                },
            }
            j = j + 1;
        }
        let ghost recs = recipes_of(rs@);
        let mut items: Vec<Item> = Vec::new();
        let mut j: usize = 0;
        while j < rs.len()
            invariant
                rs == &bom.recipes,
                recs == recipes_of(rs@),
                j <= rs@.len(),
                involved_items(items@, recs.subrange(0, j as int)),
            decreases rs@.len() - j,
        {
            items = crate::book::involved_of(Ghost(recs.subrange(0, j as int)), items, &rs[j].0);
            assert(recs.subrange(0, j as int).push(rs@[j as int].0) == recs.subrange(0, j + 1));
            j = j + 1;
        }
        assert(recs.subrange(0, rs@.len() as int) == recs);
        let mut i: usize = 0;
        while i < items.len()
            invariant
                rs == &bom.recipes,
                recs == recipes_of(rs@),
                involved_items(items@, recs),
                i <= items@.len(),
                graph_inv(nodes@, edges@, rs@),
                forall|n: int| 0 <= n < nodes@.len() ==> node_sound(#[trigger] nodes@[n], bom),
                forall|x: (usize, usize)| #[trigger] edges@.contains(x) ==> edge_sound(nodes@, x, bom),
                forall|n: int|
                    0 <= n < nodes@.len() && (#[trigger] nodes@[n]) is Item ==> exists|k: int|
                        0 <= k < i && item_node_of(nodes@, n, items@[k].spec_id()),
                forall|k: int| 0 <= k < i ==> drawn_for(nodes@, edges@, bom, (#[trigger] items@[k]).spec_id()),
            decreases items@.len() - i,
        {
            let item = &items[i];
            let id = item.id_string();
            let f = match flow_of(bom, id) {
                Some(f) => f,
                None => {
                    proof {
                        let r = choose|r: int|
                            0 <= r < recs.len() && (item_of_some(recs[r].inputs@, #[trigger] items@[i as int])
                                || item_of_some(recs[r].outputs@, items@[i as int]));
                        assert(recs[r] == rs@[r].0);
                        if item_of_some(recs[r].inputs@, items@[i as int]) {
                            let k = choose|k: int| 0 <= k < recs[r].inputs@.len() && (#[trigger] recs[r].inputs@[k]).item == items@[i as int];
                            assert(crate::recipe::reactants_use(rs@[r].0.inputs@, id@));
                        } else {
                            let k = choose|k: int| 0 <= k < recs[r].outputs@.len() && (#[trigger] recs[r].outputs@[k]).item == items@[i as int];
                            assert(crate::recipe::reactants_use(rs@[r].0.outputs@, id@));
                        }
                        assert(reactant_id(bom.recipes@, id@));
                    }
                    return Err(Error::ResolutionFailed(LpFailure::Numerical));
                },
            };
            let ghost nodes0 = nodes@;
            let ghost edges0 = edges@;
            proof {
                assert forall|n: int| 0 <= n < nodes0.len() implies !item_node_of(nodes0, n, item.spec_id()) by {
                    if nodes0[n] is Item {
                        let k = choose|k: int| 0 <= k < i && item_node_of(nodes0, n, items@[k].spec_id());
                        assert(items@[k].spec_id() != items@[i as int].spec_id());
                    }
                }
            }
            draw_item_nodes(&mut nodes, &edges, rs, item, f);
            let ghost nodes1 = nodes@;
            let pe = item_plan_edges(f);
            let mut q: usize = 0;
            while q < pe.len()
                invariant
                    rs == &bom.recipes,
                    flow_matches(f, bom, id@),
                    graph_inv(nodes@, edges@, rs@),
                    nodes@ == nodes1,
                    forall|x: (usize, usize)| #[trigger] edges@.contains(x) ==> edges0.contains(x) || edge_sound(nodes@, x, bom),
                    plan_nodes_drawn(nodes@, id@, f),
                    pe@ == plan_edges(f),
                    q <= pe@.len(),
                    forall|x: (usize, usize)| edges0.contains(x) ==> #[trigger] edges@.contains(x),
                    forall|t: int| 0 <= t < q ==> edge_drawn(nodes@, edges@, rs@, id@, f, #[trigger] pe@[t]),
                decreases pe@.len() - q,
            {
                let ghost eb = edges@;
                proof {
                    assert(pe@[q as int] == pe@[q as int]);
                    assert(plan_edges(f).contains(pe@[q as int]));
                }
                draw_edge(&nodes, &mut edges, bom, id, Ghost(f), pe[q]);
                proof {
                    assert forall|t: int| 0 <= t <= q implies edge_drawn(nodes@, edges@, rs@, id@, f, #[trigger] pe@[t]) by {
                        if t < q {
                            assert(nodes@.subrange(0, nodes@.len() as int) == nodes@);
                            lemma_edge_persists(nodes@, nodes@, eb, edges@, rs@, id@, f, pe@[t]);
                        }
                    }
                }
                q = q + 1;
            }
            proof {
                assert forall|x: (usize, usize)| #[trigger] edges@.contains(x) implies edge_sound(nodes@, x, bom) by {
                    if edges0.contains(x) {
                        assert(edge_sound(nodes0, x, bom));
                        let j = choose|j: int| 0 <= j < edges0.len() && edges0[j] == x;
                        assert(x.0 < nodes0.len() && x.1 < nodes0.len());
                        assert(nodes1.subrange(0, nodes0.len() as int)[x.0 as int] == nodes1[x.0 as int]);
                        assert(nodes1.subrange(0, nodes0.len() as int)[x.1 as int] == nodes1[x.1 as int]);
                        assert(nodes@[x.0 as int] == nodes0[x.0 as int]);
                        assert(nodes@[x.1 as int] == nodes0[x.1 as int]);
                    }
                }
                assert forall|n: int| 0 <= n < nodes@.len() implies node_sound(#[trigger] nodes@[n], bom) by {
                    if n < nodes0.len() {
                        assert(nodes0 == nodes1.subrange(0, nodes0.len() as int));
                        assert(nodes1.subrange(0, nodes0.len() as int)[n] == nodes1[n]);
                        assert(nodes@[n] == nodes0[n]);
                    } else {
                        if let Node::Item(it, a, t) = nodes@[n] {
                            assert(flow_matches(f, bom, it.spec_id()) && plan_nodes(f).contains((t, a as int)));
                        }
                    }
                }
                assert(nodes@.subrange(0, nodes@.len() as int) == nodes@);
                assert(item_drawn(nodes@, edges@, rs@, id@, f));
                assert forall|k: int| 0 <= k <= i implies drawn_for(nodes@, edges@, bom, (#[trigger] items@[k]).spec_id()) by {
                    if k < i {
                        let g = choose|g: Flow| flow_matches(g, bom, items@[k].spec_id()) && flow_ok(g) && #[trigger] item_drawn(nodes0, edges0, rs@, items@[k].spec_id(), g);
                        lemma_drawn_persists(nodes0, nodes@, edges0, edges@, rs@, items@[k].spec_id(), g);
                    }
                }
                assert forall|n: int| 0 <= n < nodes@.len() && (#[trigger] nodes@[n]) is Item implies exists|k: int|
                    0 <= k < i + 1 && item_node_of(nodes@, n, items@[k].spec_id()) by {
                    if n < nodes0.len() {
                        assert(nodes@[n] == nodes0[n]);
                        let k = choose|k: int| 0 <= k < i && item_node_of(nodes0, n, items@[k].spec_id());
                    } else {
                        assert(item_node_of(nodes@, n, items@[i as int].spec_id()));
                    }
                }
            }
            i = i + 1;
        }
        proof {
            assert forall|id: Seq<char>| #[trigger] reactant_id(bom.recipes@, id) implies drawn_for(nodes@, edges@, bom, id) by {
                let j = choose|j: int|
                    0 <= j < rs@.len() && (crate::recipe::reactants_use((#[trigger] rs@[j]).0.inputs@, id)
                        || crate::recipe::reactants_use(rs@[j].0.outputs@, id));
                assert(recs[j] == rs@[j].0);
                if crate::recipe::reactants_use(rs@[j].0.inputs@, id) {
                    let k = choose|k: int| 0 <= k < rs@[j].0.inputs@.len() && rs@[j].0.inputs@[k].item.spec_id() == id;
                    assert(has_id(items@, recs[j].inputs@[k].item.spec_id()));
                } else {
                    let k = choose|k: int| 0 <= k < rs@[j].0.outputs@.len() && rs@[j].0.outputs@[k].item.spec_id() == id;
                    assert(has_id(items@, recs[j].outputs@[k].item.spec_id()));
                }
                let a = choose|a: int| 0 <= a < items@.len() && #[trigger] items@[a].spec_id() == id;
                assert(drawn_for(nodes@, edges@, bom, items@[a].spec_id()));
            }
        }
        proof {
            assert forall|k: int| 0 <= k < edges@.len() implies edge_sound(nodes@, #[trigger] edges@[k], bom) by {
                assert(edges@.contains(edges@[k]));
            }
        }
        Ok(Graph { nodes, edges })
    }
}

/// The flow that an edge carries, in units: runs times the quantity of the item on the
/// recipe's input side (item to recipe) or output side (recipe to item). None when the
/// recipe has no reactant of that item, when the flow is within `EPSILON` of the item
/// node's amount (the edge goes unlabelled), when it leaves the `i128` range, or for
/// any other pair of nodes.
pub open spec fn edge_flow_of(nodes: Seq<Node>, e: (usize, usize)) -> Option<int> {
    let (a, b) = (nodes[e.0 as int], nodes[e.1 as int]);
    let (side, runs, amount, id) = match (a, b) {
        (Node::Item(it, amt, _), Node::Recipe(r, x)) => (Some(r.inputs@), x as int, amt as int, it.spec_id()),
        (Node::Recipe(r, x), Node::Item(it, amt, _)) => (Some(r.outputs@), x as int, amt as int, it.spec_id()),
        _ => (None, 0, 0, Seq::empty()),
    };
    match side {
        Some(rs) => {
            let f = runs * quantity_of(rs, id);
            if !crate::recipe::reactants_use(rs, id) || !in_i128(f) || spec_is_nil(f - amount) {
                None
            } else {
                Some(f)
            }
        },
        None => None,
    }
}

/// The value, as an integer.
pub open spec fn opt_int(o: Option<i128>) -> Option<int> {
    match o {
        Some(v) => Some(v as int),
        None => None,
    }
}

fn flow_on(rs: &[Reactant], runs: u64, item: &Item, amount: i128) -> (r: Option<i128>)
    ensures
        opt_int(r) == ({
            let f = runs * quantity_of(rs@, item.spec_id());
            if !crate::recipe::reactants_use(rs@, item.spec_id()) || !in_i128(f) || spec_is_nil(f - amount) {
                None::<int>
            } else {
                Some(f)
            }
        }),
{
    let id = item.id_string();
    if !crate::recipe::reactants_contain(rs, id) {
        return None;
    }
    let q = crate::problem::quantity_in(rs, id);
    let f = match (runs as i128).checked_mul(q) {
        Some(f) => f,
        None => {
            return None;
        },
    };
    match f.checked_sub(amount) {
        Some(d) => if is_nil(d) {
            None
        } else {
            Some(f)
        },
        None => Some(f),
    }
}

impl Graph {
    /// Edges join existing nodes.
    pub open spec fn graph_wf(&self) -> bool {
        edges_ok(self.edges@, self.nodes@.len() as int)
    }

    /// The flow that edge `k` carries, as `edge_flow_of` gives it.
    pub fn edge_flow(&self, k: usize) -> (r: Option<i128>)
        requires
            self.graph_wf(),
            k < self.edges@.len(),
        ensures
            opt_int(r) == edge_flow_of(self.nodes@, self.edges@[k as int]),
    {
        let e = self.edges[k];
        assert(self.edges@[k as int].0 < self.nodes@.len() && self.edges@[k as int].1 < self.nodes@.len());
        match (&self.nodes[e.0], &self.nodes[e.1]) {
            (Node::Item(it, a, _), Node::Recipe(r, x)) => flow_on(r.inputs.as_slice(), *x, it, *a),
            (Node::Recipe(r, x), Node::Item(it, a, _)) => flow_on(r.outputs.as_slice(), *x, it, *a),
            _ => None,
        }
    }
}

} // verus!
