use vstd::prelude::*;

use crate::recipe::Recipe;

verus! {

/// Item `x` is an input of some recipe of `recipes` that has item `i` among its outputs.
pub open spec fn feeds(recipes: Seq<Recipe>, x: Seq<char>, i: Seq<char>) -> bool {
    exists|r: int, k: int, o: int|
        0 <= r < recipes.len() && 0 <= k < recipes[r].inputs@.len() && 0 <= o
            < recipes[r].outputs@.len() && #[trigger] recipes[r].inputs@[k].item.spec_id() == x
            && #[trigger] recipes[r].outputs@[o].item.spec_id() == i
}

/// A chain of items, each one an input of a recipe producing the one before it.
pub open spec fn is_chain(recipes: Seq<Recipe>, p: Seq<Seq<char>>) -> bool {
    forall|j: int| 0 <= j < p.len() - 1 ==> feeds(recipes, #[trigger] p[j + 1], p[j])
}

/// Producing `a` needs, through a chain of recipes, the item `b`.
pub open spec fn needs(recipes: Seq<Recipe>, a: Seq<char>, b: Seq<char>) -> bool {
    exists|p: Seq<Seq<char>>|
        p.len() >= 1 && p[0] == a && p.last() == b && #[trigger] is_chain(recipes, p)
}

/// Item depths `d` as the memoised recursion leaves them, with `ord` the order in which
/// items were stored: an item's depth is one more than the largest contribution of
/// its inputs, where an input stored before it contributes its depth and one stored
/// after it (it was still being explored: a cycle) contributes 0; 0 without inputs.
pub open spec fn item_depths_ok(recipes: Seq<Recipe>, d: Map<Seq<char>, nat>, ord: Map<Seq<char>, nat>) -> bool {
    &&& ord.dom() == d.dom()
    &&& forall|a: Seq<char>, b: Seq<char>|
        d.dom().contains(a) && d.dom().contains(b) && a != b ==> #[trigger] ord[a] != #[trigger] ord[b]
    &&& forall|i: Seq<char>|
        #![trigger d.dom().contains(i)]
        d.dom().contains(i) ==> {
            &&& forall|x: Seq<char>|
                #![trigger feeds(recipes, x, i)]
                feeds(recipes, x, i) ==> d.dom().contains(x) && d[i] >= 1 && ((ord[x] < ord[i] && d[i] >= d[x]
                    + 1) || (ord[x] >= ord[i] && needs(recipes, x, i)))
            &&& d[i] == 0 || exists|x: Seq<char>|
                #![trigger feeds(recipes, x, i)]
                feeds(recipes, x, i) && (d[i] == 1 || (ord[x] < ord[i] && d[i] == d[x] + 1))
        }
}

/// The depth of a recipe: the largest depth among its inputs, 0 without inputs.
pub open spec fn recipe_depth(r: Recipe, d: Map<Seq<char>, nat>) -> nat {
    max_depth(r.inputs@.map_values(|x: crate::reactant::Reactant| d[x.item.spec_id()]))
}

pub open spec fn max_depth(s: Seq<nat>) -> nat
    decreases s.len(),
{
    if s.len() == 0 {
        0
    } else {
        let m = max_depth(s.drop_last());
        if s.last() > m {
            s.last()
        } else {
            m
        }
    }
}

/// How many entries of `s` are set.
pub open spec fn count_set(s: Seq<Option<u64>>) -> nat
    decreases s.len(),
{
    if s.len() == 0 {
        0
    } else {
        count_set(s.drop_last()) + if s.last() is Some {
            1nat
        } else {
            0nat
        }
    }
}

/// How many entries of `s` are false.
pub open spec fn count_unset(s: Seq<bool>) -> nat
    decreases s.len(),
{
    if s.len() == 0 {
        0
    } else {
        count_unset(s.drop_last()) + if s.last() {
            0nat
        } else {
            1nat
        }
    }
}

proof fn lemma_count_set_bounds(s: Seq<Option<u64>>)
    ensures
        count_set(s) <= s.len(),
        (exists|k: int| 0 <= k < s.len() && s[k] is None) ==> count_set(s) < s.len(),
    decreases s.len(),
{
    if s.len() > 0 {
        lemma_count_set_bounds(s.drop_last());
        if exists|k: int| 0 <= k < s.len() && s[k] is None {
            let k = choose|k: int| 0 <= k < s.len() && s[k] is None;
            if k < s.len() - 1 {
                assert(s.drop_last()[k] is None);
            }
        }
    }
}

proof fn lemma_count_set_none(s: Seq<Option<u64>>)
    requires
        forall|k: int| 0 <= k < s.len() ==> s[k] is None,
    ensures
        count_set(s) == 0,
    decreases s.len(),
{
    if s.len() > 0 {
        lemma_count_set_none(s.drop_last());
    }
}

proof fn lemma_count_set_grows(a: Seq<Option<u64>>, b: Seq<Option<u64>>)
    requires
        a.len() == b.len(),
        forall|k: int| 0 <= k < a.len() && a[k] is Some ==> b[k] is Some,
    ensures
        count_set(a) <= count_set(b),
    decreases a.len(),
{
    if a.len() > 0 {
        lemma_count_set_grows(a.drop_last(), b.drop_last());
    }
}

proof fn lemma_count_set_update(s: Seq<Option<u64>>, i: int, v: u64)
    requires
        0 <= i < s.len(),
        s[i] is None,
    ensures
        count_set(s.update(i, Some(v))) == count_set(s) + 1,
    decreases s.len(),
{
    let t = s.update(i, Some(v));
    if i < s.len() - 1 {
        lemma_count_set_update(s.drop_last(), i, v);
        assert(t.drop_last() == s.drop_last().update(i, Some(v)));
    } else {
        assert(t.drop_last() == s.drop_last());
    }
}

proof fn lemma_count_unset_shrinks(a: Seq<bool>, b: Seq<bool>)
    requires
        a.len() == b.len(),
        forall|k: int| 0 <= k < a.len() && a[k] ==> b[k],
    ensures
        count_unset(b) <= count_unset(a),
    decreases a.len(),
{
    if a.len() > 0 {
        lemma_count_unset_shrinks(a.drop_last(), b.drop_last());
    }
}

proof fn lemma_count_unset_update(s: Seq<bool>, i: int)
    requires
        0 <= i < s.len(),
        !s[i],
    ensures
        count_unset(s.update(i, true)) + 1 == count_unset(s),
    decreases s.len(),
{
    let t = s.update(i, true);
    if i < s.len() - 1 {
        lemma_count_unset_update(s.drop_last(), i);
        assert(t.drop_last() == s.drop_last().update(i, true));
    } else {
        assert(t.drop_last() == s.drop_last());
    }
}

/// The depths that `memo` holds for the items numbered in `xs`.
pub open spec fn depths_at(memo: Seq<Option<u64>>, xs: Seq<usize>) -> Seq<nat> {
    xs.map_values(|x: usize| memo[x as int]->0 as nat)
}

/// The items of a list of recipes, numbered, with each reactant's item number.
struct Helper {
    ids: Vec<String>,
    inputs: Vec<Vec<usize>>,
    outputs: Vec<Vec<usize>>,
}

pub open spec fn distinct_ids(ids: Seq<String>) -> bool {
    forall|a: int, b: int| 0 <= a < ids.len() && 0 <= b < ids.len() && a != b ==> ids[a]@ != ids[b]@
}

/// The number of the item with id `id`, which is added when it is new.
fn find_or_add(ids: &mut Vec<String>, id: &String) -> (idx: usize)
    requires
        distinct_ids(old(ids)@),
    ensures
        distinct_ids(final(ids)@),
        final(ids)@.len() >= old(ids)@.len(),
        final(ids)@.subrange(0, old(ids)@.len() as int) == old(ids)@,
        idx < final(ids)@.len(),
        final(ids)@[idx as int]@ == id@,
{
    let mut i: usize = 0;
    while i < ids.len()
        invariant
            i <= ids@.len(),
            ids@ == old(ids)@,
            distinct_ids(ids@),
            forall|k: int| 0 <= k < i ==> ids@[k]@ != id@,
        decreases ids@.len() - i,
    {
        if ids[i] == *id {
            assert(ids@.subrange(0, ids@.len() as int) == ids@);
            return i;
        }
        i = i + 1;
    }
    ids.push(id.clone());
    let ghost n = old(ids)@.len();
    assert(ids@.subrange(0, n as int) == old(ids)@);
    ids.len() - 1
}

/// The item numbers of a list of reactants, adding new items as they come.
fn number_reactants(ids: &mut Vec<String>, rs: &[crate::reactant::Reactant]) -> (r: Vec<usize>)
    requires
        distinct_ids(old(ids)@),
    ensures
        distinct_ids(final(ids)@),
        final(ids)@.len() >= old(ids)@.len(),
        final(ids)@.subrange(0, old(ids)@.len() as int) == old(ids)@,
        r@.len() == rs@.len(),
        forall|k: int|
            0 <= k < r@.len() ==> #[trigger] r@[k] < final(ids)@.len() && final(ids)@[r@[k] as int]@
                == rs@[k].item.spec_id(),
{
    let ghost ids0 = ids@;
    let mut r: Vec<usize> = Vec::new();
    let mut k: usize = 0;
    while k < rs.len()
        invariant
            k <= rs@.len(),
            distinct_ids(ids@),
            ids@.len() >= ids0.len(),
            ids@.subrange(0, ids0.len() as int) == ids0,
            r@.len() == k,
            forall|j: int|
                0 <= j < k ==> #[trigger] r@[j] < ids@.len() && ids@[r@[j] as int]@
                    == rs@[j].item.spec_id(),
        decreases rs@.len() - k,
    {
        let ghost before = ids@;
        let idx = find_or_add(ids, rs[k].item.id_string());
        proof {
            assert forall|j: int| 0 <= j < k implies #[trigger] r@[j] < ids@.len() && ids@[r@[j] as int]@
                == rs@[j].item.spec_id() by {
                assert(ids@.subrange(0, before.len() as int)[r@[j] as int] == before[r@[j] as int]);
            }
            assert(ids@.subrange(0, ids0.len() as int) == before.subrange(0, ids0.len() as int));
        }
        r.push(idx);
        k = k + 1;
    }
    r
}

impl Helper {
    spec fn wf(&self, recipes: Seq<Recipe>) -> bool {
        &&& distinct_ids(self.ids@)
        &&& self.inputs@.len() == recipes.len()
        &&& self.outputs@.len() == recipes.len()
        &&& forall|r: int|
            0 <= r < recipes.len() ==> (#[trigger] self.inputs@[r])@.len()
                == recipes[r].inputs@.len() && self.outputs@[r]@.len() == recipes[r].outputs@.len()
        &&& forall|r: int, k: int|
            0 <= r < recipes.len() && 0 <= k < self.inputs@[r]@.len() ==> #[trigger] self.inputs@[r]@[k]
                < self.ids@.len() && self.ids@[self.inputs@[r]@[k] as int]@
                == recipes[r].inputs@[k].item.spec_id()
        &&& forall|r: int, k: int|
            0 <= r < recipes.len() && 0 <= k < self.outputs@[r]@.len() ==> #[trigger] self.outputs@[r]@[k]
                < self.ids@.len() && self.ids@[self.outputs@[r]@[k] as int]@
                == recipes[r].outputs@[k].item.spec_id()
    }

    fn new(recipes: &[Recipe]) -> (r: Self)
        ensures
            r.wf(recipes@),
    {
        let mut ids: Vec<String> = Vec::new();
        let mut inputs: Vec<Vec<usize>> = Vec::new();
        let mut outputs: Vec<Vec<usize>> = Vec::new();
        let mut i: usize = 0;
        while i < recipes.len()
            invariant
                i <= recipes@.len(),
                ({
                    let h = Helper { ids, inputs, outputs };
                    h.wf(recipes@.subrange(0, i as int))
                }),
            decreases recipes@.len() - i,
        {
            let ghost ids0 = ids@;
            let ins = number_reactants(&mut ids, recipes[i].inputs());
            let ghost ids1 = ids@;
            let outs = number_reactants(&mut ids, recipes[i].outputs());
            let ghost ids2 = ids@;
            let ghost sub = recipes@.subrange(0, i as int);
            let ghost sub2 = recipes@.subrange(0, i + 1);
            inputs.push(ins);
            outputs.push(outs);
            proof {
                assert forall|r: int, k: int|
                    0 <= r < sub2.len() && 0 <= k < inputs@[r]@.len() implies #[trigger] inputs@[r]@[k]
                        < ids@.len() && ids@[inputs@[r]@[k] as int]@ == sub2[r].inputs@[k].item.spec_id() by {
                    if r < i {
                        assert(sub[r] == sub2[r]);
                        assert(ids2.subrange(0, ids1.len() as int)[inputs@[r]@[k] as int] == ids1[inputs@[r]@[k] as int]);
                        assert(ids1.subrange(0, ids0.len() as int)[inputs@[r]@[k] as int] == ids0[inputs@[r]@[k] as int]);
                    } else {
                        assert(ids2.subrange(0, ids1.len() as int)[inputs@[r]@[k] as int] == ids1[inputs@[r]@[k] as int]);
                    }
                }
                assert forall|r: int, k: int|
                    0 <= r < sub2.len() && 0 <= k < outputs@[r]@.len() implies #[trigger] outputs@[r]@[k]
                        < ids@.len() && ids@[outputs@[r]@[k] as int]@ == sub2[r].outputs@[k].item.spec_id() by {
                    if r < i {
                        assert(sub[r] == sub2[r]);
                        assert(ids2.subrange(0, ids1.len() as int)[outputs@[r]@[k] as int] == ids1[outputs@[r]@[k] as int]);
                        assert(ids1.subrange(0, ids0.len() as int)[outputs@[r]@[k] as int] == ids0[outputs@[r]@[k] as int]);
                    }
                }
                assert forall|r: int| 0 <= r < sub2.len() implies (#[trigger] inputs@[r])@.len()
                    == sub2[r].inputs@.len() && outputs@[r]@.len() == sub2[r].outputs@.len() by {
                    if r < i {
                        assert(sub[r] == sub2[r]);
                    }
                }
            }
            i = i + 1;
        }
        assert(recipes@.subrange(0, recipes@.len() as int) == recipes@);
        Helper { ids, inputs, outputs }
    }
}

impl Helper {
    spec fn n(&self) -> int {
        self.ids@.len() as int
    }

    /// Recipe `r` has item `i` among its outputs.
    spec fn produces_idx(&self, r: int, i: int) -> bool {
        exists|o: int| 0 <= o < self.outputs@[r]@.len() && self.outputs@[r]@[o] == i
    }

    /// Item `x` is an input of a recipe producing item `i`.
    spec fn feeds_idx(&self, x: int, i: int) -> bool {
        exists|r: int, k: int|
            0 <= r < self.inputs@.len() && 0 <= k < self.inputs@[r]@.len() && #[trigger] self.inputs@[r]@[k]
                == x && #[trigger] self.produces_idx(r, i)
    }

    spec fn chain_idx(&self, p: Seq<int>) -> bool {
        &&& forall|j: int| 0 <= j < p.len() ==> 0 <= #[trigger] p[j] < self.n()
        &&& forall|j: int| 0 <= j < p.len() - 1 ==> self.feeds_idx(#[trigger] p[j + 1], p[j])
    }

    spec fn needs_idx(&self, a: int, b: int) -> bool {
        exists|p: Seq<int>| p.len() >= 1 && p[0] == a && p.last() == b && #[trigger] self.chain_idx(p)
    }

    /// While item `i` is computed: what its depth `c` owes to an input `x` read so far,
    /// either a stored depth, or nothing for an item still being explored.
    spec fn step_ok(&self, c: u64, memo: Seq<Option<u64>>, stack: Seq<int>, x: int, i: int) -> bool {
        &&& c >= 1
        &&& (memo[x] is Some && c >= memo[x]->0 + 1) || (stack.contains(x) && self.needs_idx(x, i))
    }

    spec fn reached(&self, c: u64, memo: Seq<Option<u64>>, i: int) -> bool {
        c == 0 || exists|x: int| #[trigger] self.feeds_idx(x, i) && (c == 1 || memo[x] == Some((c - 1) as u64))
    }

    /// Once item `i` is stored: an input stored before it adds its depth plus one; one
    /// stored after it (or never) was being explored and adds one.
    spec fn final_ok(&self, c: u64, memo: Seq<Option<u64>>, order: Seq<usize>, x: int, i: int) -> bool {
        &&& c >= 1
        &&& (memo[x] is Some && order[x] < order[i] && c >= memo[x]->0 + 1) || ((memo[x] is None || order[x]
            >= order[i]) && self.needs_idx(x, i))
    }

    spec fn reached_ord(&self, c: u64, memo: Seq<Option<u64>>, order: Seq<usize>, i: int) -> bool {
        c == 0 || exists|x: int|
            #[trigger] self.feeds_idx(x, i) && (c == 1 || (memo[x] == Some((c - 1) as u64) && order[x] < order[i]))
    }

    spec fn entry_ok(&self, memo: Seq<Option<u64>>, order: Seq<usize>, i: int) -> bool {
        memo[i] matches Some(c) ==> {
            &&& forall|x: int| #[trigger] self.feeds_idx(x, i) ==> self.final_ok(c, memo, order, x, i)
            &&& self.reached_ord(c, memo, order, i)
        }
    }

    /// `b` and `ob` keep what `a` and `oa` stored; what is stored anew comes at or after `done`.
    spec fn extends(&self, a: Seq<Option<u64>>, b: Seq<Option<u64>>, oa: Seq<usize>, ob: Seq<usize>, done: nat) -> bool {
        &&& a.len() == b.len()
        &&& forall|k: int| 0 <= k < a.len() && (#[trigger] a[k]) is Some ==> b[k] == a[k] && ob[k] == oa[k]
        &&& forall|k: int| 0 <= k < a.len() && (#[trigger] a[k]) is None && b[k] is Some ==> ob[k] >= done
    }

    spec fn inv(&self, memo: Seq<Option<u64>>, order: Seq<usize>, visited: Seq<bool>, stack: Seq<int>, done: nat) -> bool {
        &&& memo.len() == self.n()
        &&& order.len() == self.n()
        &&& visited.len() == self.n()
        &&& done == count_set(memo)
        &&& forall|k: int| 0 <= k < self.n() && (#[trigger] memo[k]) is Some ==> visited[k] && order[k] < done
        &&& forall|a: int, b: int|
            0 <= a < self.n() && 0 <= b < self.n() && a != b && (#[trigger] memo[a]) is Some && (#[trigger] memo[b]) is Some
                ==> order[a] != order[b]
        &&& forall|k: int|
            0 <= k < self.n() ==> ((#[trigger] visited[k] && memo[k] is None) <==> stack.contains(k))
        &&& self.chain_idx(stack)
        &&& forall|k: int| 0 <= k < self.n() ==> #[trigger] self.entry_ok(memo, order, k)
        &&& forall|k: int| 0 <= k < self.n() && (#[trigger] memo[k]) is Some ==> memo[k]->0 <= count_set(memo)
    }

    proof fn lemma_extends_keeps(
        &self,
        recipes: Seq<Recipe>,
        a: Seq<Option<u64>>,
        b: Seq<Option<u64>>,
        oa: Seq<usize>,
        ob: Seq<usize>,
        done: nat,
        i: int,
    )
        requires
            self.wf(recipes),
            a.len() == self.n(),
            self.extends(a, b, oa, ob, done),
            forall|k: int| 0 <= k < a.len() && (#[trigger] a[k]) is Some ==> oa[k] < done,
            0 <= i < a.len(),
            b[i] == a[i],
            self.entry_ok(a, oa, i),
        ensures
            self.entry_ok(b, ob, i),
    {
        if a[i] is Some {
            let c = a[i]->0;
            assert(b[i] == a[i] && ob[i] == oa[i]);
            assert forall|x: int| #[trigger] self.feeds_idx(x, i) implies self.final_ok(c, b, ob, x, i) by {
                self.lemma_feeds_in_range(recipes, x, i);
                assert(self.final_ok(c, a, oa, x, i));
                if a[x] is Some {
                    assert(b[x] == a[x] && ob[x] == oa[x]);
                }
            }
            if c != 0 {
                let x = choose|x: int|
                    #[trigger] self.feeds_idx(x, i) && (c == 1 || (a[x] == Some((c - 1) as u64) && oa[x] < oa[i]));
                self.lemma_feeds_in_range(recipes, x, i);
                if c != 1 {
                    assert(b[x] == a[x] && ob[x] == oa[x]);
                }
                assert(self.feeds_idx(x, i) && (c == 1 || (b[x] == Some((c - 1) as u64) && ob[x] < ob[i])));
            }
        }
    }

    proof fn lemma_feeds_in_range(&self, recipes: Seq<Recipe>, x: int, i: int)
        requires
            self.wf(recipes),
            self.feeds_idx(x, i),
        ensures
            0 <= x < self.n(),
    {
        let (r, k) = choose|r: int, k: int|
            0 <= r < self.inputs@.len() && 0 <= k < self.inputs@[r]@.len() && #[trigger] self.inputs@[r]@[k]
                == x && #[trigger] self.produces_idx(r, i);
        assert(self.inputs@[r]@[k] < self.ids@.len());
    }

    fn produces(&self, Ghost(recipes): Ghost<Seq<Recipe>>, r: usize, i: usize) -> (b: bool)
        requires
            self.wf(recipes),
            r < self.outputs@.len(),
        ensures
            b == self.produces_idx(r as int, i as int),
    {
        let outs = &self.outputs[r];
        let mut o: usize = 0;
        while o < outs.len()
            invariant
                o <= outs@.len(),
                *outs == self.outputs@[r as int],
                forall|j: int| 0 <= j < o ==> outs@[j] != i,
            decreases outs@.len() - o,
        {
            if outs[o] == i {
                return true;
            }
            o = o + 1;
        }
        false
    }

    fn depth_of(
        &self,
        Ghost(recipes): Ghost<Seq<Recipe>>,
        i: usize,
        memo: &mut Vec<Option<u64>>,
        order: &mut Vec<usize>,
        done: &mut usize,
        visited: &mut Vec<bool>,
        Ghost(stack): Ghost<Seq<int>>,
        Ghost(unvisited): Ghost<nat>,
    ) -> (c: u64)
        requires
            unvisited == count_unset(old(visited)@),
            self.wf(recipes),
            i < self.n(),
            self.inv(old(memo)@, old(order)@, old(visited)@, stack, *old(done) as nat),
            !old(visited)@[i as int],
            stack.len() == 0 || self.feeds_idx(i as int, stack.last()),
        ensures
            self.inv(final(memo)@, final(order)@, final(visited)@, stack, *final(done) as nat),
            final(memo)@[i as int] == Some(c),
            self.extends(old(memo)@, final(memo)@, old(order)@, final(order)@, *old(done) as nat),
            *final(done) >= *old(done),
            final(visited)@.len() == old(visited)@.len(),
            forall|k: int| 0 <= k < self.n() && old(visited)@[k] ==> #[trigger] final(visited)@[k],
        decreases unvisited,
    {
        let ghost memo0 = memo@;
        let ghost order0 = order@;
        let ghost done0 = *done as nat;
        let ghost visited0 = visited@;
        let ghost st = stack.push(i as int);
        proof {
            lemma_count_unset_update(visited0, i as int);
            assert(!stack.contains(i as int));
            assert forall|j: int| 0 <= j < st.len() - 1 implies self.feeds_idx(#[trigger] st[j + 1], st[j]) by {
                if j < stack.len() - 1 {
                    assert(st[j + 1] == stack[j + 1]);
                }
            }
            assert forall|j: int| 0 <= j < st.len() implies 0 <= #[trigger] st[j] < self.n() by {
                if j < stack.len() {
                    assert(st[j] == stack[j]);
                }
            }
        }
        visited.set(i, true);
        proof {
            assert forall|k: int| 0 <= k < self.n() implies ((#[trigger] visited@[k] && memo@[k] is None)
                <==> st.contains(k)) by {
                if k != i {
                    if stack.contains(k) {
                        let j = choose|j: int| 0 <= j < stack.len() && stack[j] == k;
                        assert(st[j] == k);
                    }
                    if st.contains(k) {
                        let j = choose|j: int| 0 <= j < st.len() && st[j] == k;
                        assert(stack[j] == k);
                    }
                } else {
                    assert(st[st.len() - 1] == i);
                }
            }
        }
        let n_items: usize = self.ids.len();
        let mut c: u64 = 0;
        let mut r: usize = 0;
        while r < self.inputs.len()
            invariant
                self.wf(recipes),
                i < self.n(),
                st == stack.push(i as int),
                n_items == self.n(),
                self.inv(memo@, order@, visited@, st, *done as nat),
                memo@[i as int] is None,
                visited@[i as int],
                self.extends(memo0, memo@, order0, order@, done0),
                *done >= done0,
                visited@.len() == visited0.len(),
                forall|k: int| 0 <= k < self.n() && visited0[k] ==> #[trigger] visited@[k],
                count_unset(visited@) < count_unset(visited0),
                unvisited == count_unset(visited0),
                count_unset(visited0.update(i as int, true)) + 1 == count_unset(visited0),
                r <= self.inputs@.len(),
                forall|r2: int, k: int|
                    0 <= r2 < r && 0 <= k < self.inputs@[r2]@.len() && self.produces_idx(r2, i as int)
                        ==> self.step_ok(c, memo@, st, #[trigger] self.inputs@[r2]@[k] as int, i as int),
                self.reached(c, memo@, i as int),
                c <= count_set(memo@) + 1,
            decreases self.inputs@.len() - r,
        {
            if self.produces(Ghost(recipes), r, i) {
                let ins = &self.inputs[r];
                let mut k: usize = 0;
                while k < ins.len()
                    invariant
                        self.wf(recipes),
                        i < self.n(),
                        r < self.inputs@.len(),
                        *ins == self.inputs@[r as int],
                        self.produces_idx(r as int, i as int),
                        st == stack.push(i as int),
                        n_items == self.n(),
                        self.inv(memo@, order@, visited@, st, *done as nat),
                        memo@[i as int] is None,
                        visited@[i as int],
                        self.extends(memo0, memo@, order0, order@, done0),
                        *done >= done0,
                        visited@.len() == visited0.len(),
                        forall|k: int| 0 <= k < self.n() && visited0[k] ==> #[trigger] visited@[k],
                        count_unset(visited@) < count_unset(visited0),
                        unvisited == count_unset(visited0),
                        count_unset(visited0.update(i as int, true)) + 1 == count_unset(visited0),
                        k <= ins@.len(),
                        forall|r2: int, k2: int|
                            0 <= r2 < r && 0 <= k2 < self.inputs@[r2]@.len() && self.produces_idx(r2, i as int)
                                ==> self.step_ok(c, memo@, st, #[trigger] self.inputs@[r2]@[k2] as int, i as int),
                        forall|k2: int| 0 <= k2 < k ==> self.step_ok(c, memo@, st, #[trigger] ins@[k2] as int, i as int),
                        self.reached(c, memo@, i as int),
                        c <= count_set(memo@) + 1,
                    decreases ins@.len() - k,
                {
                    let x = ins[k];
                    let ghost memo1 = memo@;
                    let ghost order1 = order@;
                    let ghost done1 = *done as nat;
                    let ghost c1 = c;
                    assert(self.inputs@[r as int]@[k as int] == x);
                    assert(self.feeds_idx(x as int, i as int));
                    proof {
                        assert(x < self.n());
                    }
                    let e: u64 = if visited[x] {
                        match memo[x] {
                            Some(v) => v,
                            None => {
                                proof {
                                    assert(st.contains(x as int));
                                    let j = choose|j: int| 0 <= j < st.len() && st[j] == x;
                                    let p = st.subrange(j, st.len() as int);
                                    assert(p[0] == x);
                                    assert(p.last() == i);
                                    assert forall|t: int| 0 <= t < p.len() - 1 implies self.feeds_idx(#[trigger] p[t + 1], p[t]) by {
                                        assert(p[t + 1] == st[j + t + 1]);
                                        assert(p[t] == st[j + t]);
                                    }
                                    assert forall|t: int| 0 <= t < p.len() implies 0 <= #[trigger] p[t] < self.n() by {
                                        assert(p[t] == st[j + t]);
                                    }
                                    assert(self.chain_idx(p));
                                    assert(self.needs_idx(x as int, i as int));
                                }
                                0
                            },
                        }
                    } else {
                        proof {
                            lemma_count_unset_shrinks(visited0.update(i as int, true), visited@);
                            assert(count_unset(visited@) < count_unset(visited0));
                        }
                        let ghost u = count_unset(visited@);
                        self.depth_of(Ghost(recipes), x, memo, order, done, visited, Ghost(st), Ghost(u))
                    };
                    proof {
                        lemma_count_set_bounds(memo@);
                        assert(memo@[x as int] is Some ==> memo@[x as int]->0 <= count_set(memo@));
                        lemma_count_set_grows(memo1, memo@);
                        assert(visited0.update(i as int, true).len() == visited@.len());
                        assert(forall|k: int| 0 <= k < visited@.len() && visited0.update(i as int, true)[k] ==> visited@[k]);
                        lemma_count_unset_shrinks(visited0.update(i as int, true), visited@);
                        assert(count_unset(visited@) <= count_unset(visited0.update(i as int, true)));
                        assert(count_unset(visited0.update(i as int, true)) + 1 == count_unset(visited0));
                        assert(memo@[i as int] is None);
                        assert(e <= count_set(memo@));
                        assert(count_set(memo@) < memo@.len());
                        assert(memo@.len() == n_items);
                    }
                    if e + 1 > c {
                        c = e + 1;
                    }
                    proof {
                        assert(self.extends(memo1, memo@, order1, order@, done1));
                        assert forall|q: int| 0 <= q < memo0.len() && (#[trigger] memo0[q]) is None && memo@[q] is Some
                            implies order@[q] >= done0 by {
                            if memo1[q] is None {
                                assert(order@[q] >= done1);
                            }
                        }
                        assert forall|q: int| 0 <= q < memo0.len() && (#[trigger] memo0[q]) is Some
                            implies memo@[q] == memo0[q] && order@[q] == order0[q] by {
                            assert(memo1[q] is Some);
                        }
                        assert(self.extends(memo0, memo@, order0, order@, done0));
                        assert forall|r2: int, k2: int|
                            0 <= r2 < r && 0 <= k2 < self.inputs@[r2]@.len() && self.produces_idx(r2, i as int)
                                implies self.step_ok(c, memo@, st, #[trigger] self.inputs@[r2]@[k2] as int, i as int) by {
                            let y = self.inputs@[r2]@[k2] as int;
                            assert(self.step_ok(c1, memo1, st, y, i as int));
                            if memo1[y] is Some {
                                assert(memo@[y] == memo1[y]);
                            }
                        }
                        assert forall|k2: int| 0 <= k2 <= k implies self.step_ok(c, memo@, st, #[trigger] ins@[k2] as int, i as int) by {
                            let y = ins@[k2] as int;
                            if k2 < k {
                                assert(self.step_ok(c1, memo1, st, y, i as int));
                                if memo1[y] is Some {
                                    assert(memo@[y] == memo1[y]);
                                }
                            } else {
                                assert(y == x);
                                if memo@[y] is None {
                                    assert(st.contains(y));
                                }
                            }
                        }
                        if c != c1 {
                            assert(self.feeds_idx(x as int, i as int) && (c == 1 || memo@[x as int] == Some((c - 1) as u64)));
                        } else if c1 != 0 {
                            let y = choose|y: int| #[trigger] self.feeds_idx(y, i as int) && (c1 == 1 || memo1[y] == Some((c1 - 1) as u64));
                            self.lemma_feeds_in_range(recipes, y, i as int);
                            assert(self.feeds_idx(y, i as int) && (c == 1 || memo@[y] == Some((c - 1) as u64)));
                        }
                    }
                    k = k + 1;
                }
            }
            r = r + 1;
        }
        let ghost memo2 = memo@;
        let ghost order2 = order@;
        let ghost done2 = *done as nat;
        proof {
            lemma_count_set_update(memo2, i as int, c);
            lemma_count_set_bounds(memo2);
        }
        let d = *done;
        memo.set(i, Some(c));
        order.set(i, d);
        *done = d + 1;
        proof {
            assert(self.extends(memo2, memo@, order2, order@, done2));
            assert forall|x: int| #[trigger] self.feeds_idx(x, i as int) implies self.final_ok(c, memo@, order@, x, i as int) by {
                let (r2, k2) = choose|r2: int, k2: int|
                    0 <= r2 < self.inputs@.len() && 0 <= k2 < self.inputs@[r2]@.len() && #[trigger] self.inputs@[r2]@[k2]
                        == x && #[trigger] self.produces_idx(r2, i as int);
                self.lemma_feeds_in_range(recipes, x, i as int);
                assert(self.step_ok(c, memo2, st, x, i as int));
                if memo2[x] is Some {
                    assert(x != i);
                    assert(memo@[x] == memo2[x] && order@[x] == order2[x]);
                    assert(order2[x] < done2);
                } else {
                    assert(st.contains(x));
                    if x != i {
                        assert(memo@[x] is None);
                    }
                }
            }
            if c != 0 {
                let y = choose|y: int| #[trigger] self.feeds_idx(y, i as int) && (c == 1 || memo2[y] == Some((c - 1) as u64));
                self.lemma_feeds_in_range(recipes, y, i as int);
                if c != 1 {
                    assert(y != i);
                    assert(memo@[y] == memo2[y] && order@[y] == order2[y]);
                }
                assert(self.feeds_idx(y, i as int) && (c == 1 || (memo@[y] == Some((c - 1) as u64) && order@[y] < order@[i as int])));
            }
            assert forall|k: int| 0 <= k < self.n() implies #[trigger] self.entry_ok(memo@, order@, k) by {
                if k != i {
                    assert(self.entry_ok(memo2, order2, k));
                    assert(memo@[k] == memo2[k]);
                    self.lemma_extends_keeps(recipes, memo2, memo@, order2, order@, done2, k);
                }
            }
            assert forall|k: int| 0 <= k < self.n() implies ((#[trigger] visited@[k] && memo@[k] is None)
                <==> stack.contains(k)) by {
                if k != i {
                    assert(visited@[k] && memo2[k] is None <==> st.contains(k));
                    if stack.contains(k) {
                        let j = choose|j: int| 0 <= j < stack.len() && stack[j] == k;
                        assert(st[j] == k);
                    }
                    if st.contains(k) {
                        let j = choose|j: int| 0 <= j < st.len() && st[j] == k;
                        if j < stack.len() {
                            assert(stack[j] == k);
                        }
                    }
                }
            }
            assert forall|k: int| 0 <= k < self.n() && (#[trigger] memo@[k]) is Some implies memo@[k]->0
                <= count_set(memo@) && visited@[k] && order@[k] < *done as nat by {
                if k != i {
                    assert(memo2[k] is Some);
                }
            }
            assert forall|a: int, b: int|
                0 <= a < self.n() && 0 <= b < self.n() && a != b && (#[trigger] memo@[a]) is Some && (#[trigger] memo@[b]) is Some
                    implies order@[a] != order@[b] by {
                if a != i && b != i {
                    assert(memo2[a] is Some && memo2[b] is Some);
                } else if a == i {
                    assert(memo2[b] is Some);
                } else {
                    assert(memo2[a] is Some);
                }
            }
            assert forall|q: int| 0 <= q < memo0.len() && (#[trigger] memo0[q]) is None && memo@[q] is Some
                implies order@[q] >= done0 by {
                if q != i && memo2[q] is Some {
                    assert(order@[q] == order2[q]);
                }
            }
            assert forall|q: int| 0 <= q < memo0.len() && (#[trigger] memo0[q]) is Some
                implies memo@[q] == memo0[q] && order@[q] == order0[q] by {
                assert(memo2[q] is Some);
            }
            assert(self.extends(memo0, memo@, order0, order@, done0));
        }
        c
    }
}

impl Helper {
    /// The depth of every item, each one set, with the order in which they were stored.
    fn all_depths(&self, Ghost(recipes): Ghost<Seq<Recipe>>) -> (r: (Vec<Option<u64>>, Vec<usize>))
        requires
            self.wf(recipes),
        ensures
            r.0@.len() == self.n(),
            r.1@.len() == self.n(),
            forall|k: int| 0 <= k < self.n() ==> (#[trigger] r.0@[k]) is Some,
            forall|k: int| 0 <= k < self.n() ==> #[trigger] self.entry_ok(r.0@, r.1@, k),
            forall|a: int, b: int| 0 <= a < self.n() && 0 <= b < self.n() && a != b ==> #[trigger] r.1@[a] != #[trigger] r.1@[b],
    {
        let n = self.ids.len();
        let mut memo: Vec<Option<u64>> = Vec::new();
        let mut order: Vec<usize> = Vec::new();
        let mut visited: Vec<bool> = Vec::new();
        let mut j: usize = 0;
        while j < n
            invariant
                j <= n,
                n == self.n(),
                memo@ == Seq::new(j as nat, |k: int| None::<u64>),
                order@.len() == j,
                visited@ == Seq::new(j as nat, |k: int| false),
            decreases n - j,
        {
            memo.push(None);
            order.push(0);
            visited.push(false);
            j = j + 1;
            assert(memo@ =~= Seq::new(j as nat, |k: int| None::<u64>));
            assert(visited@ =~= Seq::new(j as nat, |k: int| false));
        }
        let ghost empty = Seq::<int>::empty();
        let mut done: usize = 0;
        proof {
            assert forall|k: int| 0 <= k < self.n() implies #[trigger] self.entry_ok(memo@, order@, k) by {}
            assert forall|k: int| 0 <= k < self.n() implies ((#[trigger] visited@[k] && memo@[k] is None)
                <==> empty.contains(k)) by {}
            assert(count_set(memo@) == 0) by {
                lemma_count_set_none(memo@);
            }
        }
        let mut i: usize = 0;
        while i < n
            invariant
                self.wf(recipes),
                n == self.n(),
                i <= n,
                self.inv(memo@, order@, visited@, empty, done as nat),
                empty == Seq::<int>::empty(),
                forall|k: int| 0 <= k < i ==> (#[trigger] memo@[k]) is Some,
            decreases n - i,
        {
            let ghost memo0 = memo@;
            if !visited[i] {
                let ghost u = count_unset(visited@);
                self.depth_of(Ghost(recipes), i, &mut memo, &mut order, &mut done, &mut visited, Ghost(empty), Ghost(u));
            } else {
                assert(!empty.contains(i as int));
                assert(memo@[i as int] is Some);
            }
            assert forall|k: int| 0 <= k <= i implies (#[trigger] memo@[k]) is Some by {
                if k < i {
                    assert(memo0[k] is Some);
                }
            }
            i = i + 1;
        }
        proof {
            assert forall|a: int, b: int| 0 <= a < self.n() && 0 <= b < self.n() && a != b implies #[trigger] order@[a]
                != #[trigger] order@[b] by {
                assert(memo@[a] is Some && memo@[b] is Some);
            }
        }
        (memo, order)
    }

    /// The largest depth among the inputs of recipe `r`.
    fn recipe_depth_of(&self, Ghost(recipes): Ghost<Seq<Recipe>>, memo: &Vec<Option<u64>>, r: usize) -> (c: u64)
        requires
            self.wf(recipes),
            r < recipes.len(),
            memo@.len() == self.n(),
            forall|k: int| 0 <= k < self.n() ==> (#[trigger] memo@[k]) is Some,
        ensures
            c == max_depth(depths_at(memo@, self.inputs@[r as int]@)),
    {
        let ins = &self.inputs[r];
        let mut c: u64 = 0;
        let mut k: usize = 0;
        while k < ins.len()
            invariant
                self.wf(recipes),
                r < recipes.len(),
                *ins == self.inputs@[r as int],
                memo@.len() == self.n(),
                forall|k: int| 0 <= k < self.n() ==> (#[trigger] memo@[k]) is Some,
                k <= ins@.len(),
                c == max_depth(depths_at(memo@, ins@.subrange(0, k as int))),
            decreases ins@.len() - k,
        {
            assert(ins@[k as int] == self.inputs@[r as int]@[k as int]);
            let v = match memo[ins[k]] {
                Some(v) => v,
                None => 0,
            };
            proof {
                let a = depths_at(memo@, ins@.subrange(0, k as int));
                let b = depths_at(memo@, ins@.subrange(0, k + 1));
                assert(b.drop_last() == a);
                assert(b.len() == k + 1);
                assert(memo@[ins@[k as int] as int] == Some(v));
                assert(b.last() == v);
            }
            if v > c {
                c = v;
            }
            k = k + 1;
        }
        assert(ins@.subrange(0, ins@.len() as int) == ins@);
        c
    }
}

/// Every item that a recipe of `recipes` mentions has a depth under `d`.
pub open spec fn covers(recipes: Seq<Recipe>, d: Map<Seq<char>, nat>) -> bool {
    &&& forall|r: int, k: int|
        0 <= r < recipes.len() && 0 <= k < recipes[r].inputs@.len() ==> d.dom().contains(
            #[trigger] recipes[r].inputs@[k].item.spec_id(),
        )
    &&& forall|r: int, k: int|
        0 <= r < recipes.len() && 0 <= k < recipes[r].outputs@.len() ==> d.dom().contains(
            #[trigger] recipes[r].outputs@[k].item.spec_id(),
        )
}

impl Helper {
    spec fn id_depths(&self, memo: Seq<Option<u64>>) -> Map<Seq<char>, nat> {
        Map::new(
            |s: Seq<char>| exists|k: int| 0 <= k < self.n() && #[trigger] self.ids@[k]@ == s,
            |s: Seq<char>|
                memo[choose|k: int| 0 <= k < self.n() && #[trigger] self.ids@[k]@ == s]->0 as nat,
        )
    }

    spec fn id_order(&self, order: Seq<usize>) -> Map<Seq<char>, nat> {
        Map::new(
            |s: Seq<char>| exists|k: int| 0 <= k < self.n() && #[trigger] self.ids@[k]@ == s,
            |s: Seq<char>| order[choose|k: int| 0 <= k < self.n() && #[trigger] self.ids@[k]@ == s] as nat,
        )
    }

    proof fn lemma_id_depth(&self, recipes: Seq<Recipe>, memo: Seq<Option<u64>>, a: int)
        requires
            self.wf(recipes),
            0 <= a < self.n(),
        ensures
            self.id_depths(memo).dom().contains(self.ids@[a]@),
            self.id_depths(memo)[self.ids@[a]@] == memo[a]->0 as nat,
            forall|order: Seq<usize>| #[trigger] self.id_order(order)[self.ids@[a]@] == order[a] as nat,
            forall|order: Seq<usize>| #[trigger] self.id_order(order).dom() == self.id_depths(memo).dom(),
    {
        let s = self.ids@[a]@;
        assert(self.ids@[a]@ == s);
        let k = choose|k: int| 0 <= k < self.n() && #[trigger] self.ids@[k]@ == s;
        assert(k == a);
    }

    proof fn lemma_chain_to_ids(&self, recipes: Seq<Recipe>, p: Seq<int>)
        requires
            self.wf(recipes),
            self.chain_idx(p),
        ensures
            is_chain(recipes, p.map_values(|v: int| self.ids@[v]@)),
    {
        let q = p.map_values(|v: int| self.ids@[v]@);
        assert forall|j: int| 0 <= j < q.len() - 1 implies feeds(recipes, #[trigger] q[j + 1], q[j]) by {
            assert(self.feeds_idx(p[j + 1], p[j]));
            let (r, k) = choose|r: int, k: int|
                0 <= r < self.inputs@.len() && 0 <= k < self.inputs@[r]@.len() && #[trigger] self.inputs@[r]@[k]
                    == p[j + 1] && #[trigger] self.produces_idx(r, p[j]);
            let o = choose|o: int| 0 <= o < self.outputs@[r]@.len() && self.outputs@[r]@[o] == p[j];
            assert(recipes[r].inputs@[k].item.spec_id() == q[j + 1]);
            assert(recipes[r].outputs@[o].item.spec_id() == q[j]);
        }
    }

    proof fn lemma_depths_ok(&self, recipes: Seq<Recipe>, memo: Seq<Option<u64>>, order: Seq<usize>)
        requires
            self.wf(recipes),
            memo.len() == self.n(),
            order.len() == self.n(),
            forall|k: int| 0 <= k < self.n() ==> (#[trigger] memo[k]) is Some,
            forall|k: int| 0 <= k < self.n() ==> #[trigger] self.entry_ok(memo, order, k),
            forall|a: int, b: int| 0 <= a < self.n() && 0 <= b < self.n() && a != b ==> #[trigger] order[a] != #[trigger] order[b],
        ensures
            item_depths_ok(recipes, self.id_depths(memo), self.id_order(order)),
            covers(recipes, self.id_depths(memo)),
    {
        let d = self.id_depths(memo);
        let ord = self.id_order(order);
        assert(ord.dom() =~= d.dom());
        assert forall|r: int, k: int|
            0 <= r < recipes.len() && 0 <= k < recipes[r].inputs@.len() implies d.dom().contains(
                #[trigger] recipes[r].inputs@[k].item.spec_id()) by {
            assert(self.inputs@[r]@.len() == recipes[r].inputs@.len());
            assert(self.inputs@[r]@[k] < self.ids@.len());
            self.lemma_id_depth(recipes, memo, self.inputs@[r]@[k] as int);
        }
        assert forall|r: int, k: int|
            0 <= r < recipes.len() && 0 <= k < recipes[r].outputs@.len() implies d.dom().contains(
                #[trigger] recipes[r].outputs@[k].item.spec_id()) by {
            assert(self.inputs@[r]@.len() == recipes[r].inputs@.len());
            assert(self.outputs@[r]@[k] < self.ids@.len());
            self.lemma_id_depth(recipes, memo, self.outputs@[r]@[k] as int);
        }
        assert forall|s1: Seq<char>, s2: Seq<char>|
            d.dom().contains(s1) && d.dom().contains(s2) && s1 != s2 implies #[trigger] ord[s1] != #[trigger] ord[s2] by {
            let a = choose|k: int| 0 <= k < self.n() && #[trigger] self.ids@[k]@ == s1;
            let b = choose|k: int| 0 <= k < self.n() && #[trigger] self.ids@[k]@ == s2;
            self.lemma_id_depth(recipes, memo, a);
            self.lemma_id_depth(recipes, memo, b);
            assert(ord[s1] == order[a] as nat);
            assert(ord[s2] == order[b] as nat);
        }
        assert forall|s: Seq<char>| #[trigger] d.dom().contains(s) implies {
            &&& forall|x: Seq<char>|
                #![trigger feeds(recipes, x, s)]
                feeds(recipes, x, s) ==> d.dom().contains(x) && d[s] >= 1 && ((ord[x] < ord[s] && d[s] >= d[x]
                    + 1) || (ord[x] >= ord[s] && needs(recipes, x, s)))
            &&& d[s] == 0 || exists|x: Seq<char>|
                #![trigger feeds(recipes, x, s)]
                feeds(recipes, x, s) && (d[s] == 1 || (ord[x] < ord[s] && d[s] == d[x] + 1))
        } by {
            let a = choose|k: int| 0 <= k < self.n() && #[trigger] self.ids@[k]@ == s;
            self.lemma_id_depth(recipes, memo, a);
            assert(ord[s] == order[a] as nat);
            let c = memo[a]->0;
            assert(self.entry_ok(memo, order, a));
            assert forall|x: Seq<char>| #[trigger] feeds(recipes, x, s) implies d.dom().contains(x) && d[s] >= 1
                && ((ord[x] < ord[s] && d[s] >= d[x] + 1) || (ord[x] >= ord[s] && needs(recipes, x, s))) by {
                let (r, k, o) = choose|r: int, k: int, o: int|
                    0 <= r < recipes.len() && 0 <= k < recipes[r].inputs@.len() && 0 <= o
                        < recipes[r].outputs@.len() && #[trigger] recipes[r].inputs@[k].item.spec_id() == x
                        && #[trigger] recipes[r].outputs@[o].item.spec_id() == s;
                let xi = self.inputs@[r]@[k] as int;
                let oi = self.outputs@[r]@[o] as int;
                assert(self.ids@[oi]@ == s);
                assert(oi == a);
                assert(self.produces_idx(r, a));
                assert(self.feeds_idx(xi, a));
                self.lemma_id_depth(recipes, memo, xi);
                assert(ord[x] == order[xi] as nat);
                assert(self.final_ok(c, memo, order, xi, a));
                if !(memo[xi] is Some && order[xi] < order[a] && c >= memo[xi]->0 + 1) {
                    assert(self.needs_idx(xi, a));
                    let p = choose|p: Seq<int>| p.len() >= 1 && p[0] == xi && p.last() == a && #[trigger] self.chain_idx(p);
                    self.lemma_chain_to_ids(recipes, p);
                    let q = p.map_values(|v: int| self.ids@[v]@);
                    assert(q[0] == x);
                    assert(q.last() == s);
                    assert(is_chain(recipes, q));
                }
            }
            if c != 0 {
                let xi = choose|xi: int|
                    #[trigger] self.feeds_idx(xi, a) && (c == 1 || (memo[xi] == Some((c - 1) as u64) && order[xi] < order[a]));
                let (r, k) = choose|r: int, k: int|
                    0 <= r < self.inputs@.len() && 0 <= k < self.inputs@[r]@.len() && #[trigger] self.inputs@[r]@[k]
                        == xi && #[trigger] self.produces_idx(r, a);
                let o = choose|o: int| 0 <= o < self.outputs@[r]@.len() && self.outputs@[r]@[o] == a;
                let x = self.ids@[xi]@;
                assert(recipes[r].inputs@[k].item.spec_id() == x);
                assert(recipes[r].outputs@[o].item.spec_id() == s);
                assert(feeds(recipes, x, s));
                self.lemma_id_depth(recipes, memo, xi);
                assert(ord[x] == order[xi] as nat);
            }
        }
    }
}

/// The complexity of each recipe, in order: the largest depth among its inputs,
/// where items are given depths as `item_depths_ok` describes.
pub fn compute_complexity(recipes: &[Recipe]) -> (res: Vec<u64>)
    ensures
        res@.len() == recipes@.len(),
        exists|d: Map<Seq<char>, nat>, ord: Map<Seq<char>, nat>|
            #[trigger] item_depths_ok(recipes@, d, ord) && covers(recipes@, d) && forall|r: int|
                0 <= r < recipes@.len() ==> res@[r] == recipe_depth(recipes@[r], d),
{
    let index = Helper::new(recipes);
    let (memo, order) = index.all_depths(Ghost(recipes@));
    let ghost d = index.id_depths(memo@);
    let mut res: Vec<u64> = Vec::new();
    let mut r: usize = 0;
    while r < recipes.len()
        invariant
            index.wf(recipes@),
            memo@.len() == index.n(),
            forall|k: int| 0 <= k < index.n() ==> (#[trigger] memo@[k]) is Some,
            order@.len() == index.n(),
            forall|k: int| 0 <= k < index.n() ==> #[trigger] index.entry_ok(memo@, order@, k),
            forall|a: int, b: int| 0 <= a < index.n() && 0 <= b < index.n() && a != b ==> #[trigger] order@[a] != #[trigger] order@[b],
            d == index.id_depths(memo@),
            r <= recipes@.len(),
            res@.len() == r,
            forall|j: int| 0 <= j < r ==> res@[j] == recipe_depth(recipes@[j], d),
        decreases recipes@.len() - r,
    {
        let c = index.recipe_depth_of(Ghost(recipes@), &memo, r);
        proof {
            let a = depths_at(memo@, index.inputs@[r as int]@);
            let b = recipes@[r as int].inputs@.map_values(|x: crate::reactant::Reactant| d[x.item.spec_id()]);
            assert forall|k: int| 0 <= k < a.len() implies a[k] == b[k] by {
                index.lemma_id_depth(recipes@, memo@, index.inputs@[r as int]@[k] as int);
            }
            assert(a =~= b);
        }
        res.push(c);
        r = r + 1;
    }
    proof {
        index.lemma_depths_ok(recipes@, memo@, order@);
    }
    res
}

/// `idx` lists positions of `keys`, by ascending key and, among equal keys, by position.
pub open spec fn ordered_by_key(idx: Seq<usize>, keys: Seq<u64>) -> bool {
    &&& forall|a: int| 0 <= a < idx.len() ==> #[trigger] idx[a] < keys.len()
    &&& forall|a: int, b: int|
        0 <= a < b < idx.len() ==> keys[#[trigger] idx[a] as int] < keys[#[trigger] idx[b] as int] || (
        keys[idx[a] as int] == keys[idx[b] as int] && idx[a] < idx[b])
}

/// The positions `0..n` of `keys` ordered by ascending key, ties in position order.
pub open spec fn is_stable_order(idx: Seq<usize>, keys: Seq<u64>) -> bool {
    idx.len() == keys.len() && ordered_by_key(idx, keys)
}

/// The positions of `keys` in ascending order of key, ties kept in position order.
pub fn stable_order(keys: &Vec<u64>) -> (idx: Vec<usize>)
    ensures
        is_stable_order(idx@, keys@),
{
    let mut idx: Vec<usize> = Vec::new();
    let mut i: usize = 0;
    while i < keys.len()
        invariant
            i <= keys@.len(),
            idx@.len() == i,
            ordered_by_key(idx@, keys@),
            forall|a: int| 0 <= a < idx@.len() ==> #[trigger] idx@[a] < i,
        decreases keys@.len() - i,
    {
        let key = keys[i];
        let mut p: usize = 0;
        while p < idx.len() && keys[idx[p]] <= key
            invariant
                p <= idx@.len(),
                idx@.len() == i,
                i < keys@.len(),
                key == keys@[i as int],
                ordered_by_key(idx@, keys@),
                forall|a: int| 0 <= a < p ==> keys@[#[trigger] idx@[a] as int] <= key,
            decreases idx@.len() - p,
        {
            p = p + 1;
        }
        let ghost old_idx = idx@;
        proof {
            assert forall|a: int| p <= a < old_idx.len() implies keys@[#[trigger] old_idx[a] as int] > key by {
                if a > p {
                    assert(keys@[old_idx[p as int] as int] <= keys@[old_idx[a] as int]);
                }
            }
        }
        idx.insert(p, i);
        proof {
            let n = idx@;
            assert(n == old_idx.insert(p as int, i));
            assert forall|a: int| 0 <= a < n.len() implies #[trigger] n[a] < i + 1 && n[a] < keys@.len() by {
                if a < p {
                    assert(n[a] == old_idx[a]);
                } else if a > p {
                    assert(n[a] == old_idx[a - 1]);
                }
            }
            assert forall|a: int, b: int| 0 <= a < b < n.len() implies keys@[#[trigger] n[a] as int]
                < keys@[#[trigger] n[b] as int] || (keys@[n[a] as int] == keys@[n[b] as int] && n[a]
                < n[b]) by {
                if a < p {
                    assert(n[a] == old_idx[a]);
                    if b < p {
                        assert(n[b] == old_idx[b]);
                    } else if b > p {
                        assert(n[b] == old_idx[b - 1]);
                    }
                } else if a == p {
                    assert(n[b] == old_idx[b - 1]);
                } else {
                    assert(n[a] == old_idx[a - 1]);
                    assert(n[b] == old_idx[b - 1]);
                }
            }
        }
        i = i + 1;
    }
    idx
}

/// `out` holds the recipes of `recipes` in the order that `idx` gives.
pub open spec fn arranged(out: Seq<Recipe>, recipes: Seq<Recipe>, idx: Seq<usize>) -> bool {
    &&& out.len() == idx.len()
    &&& forall|j: int| 0 <= j < out.len() ==> (#[trigger] out[j]).same_as(&recipes[idx[j] as int])
}

/// A copy of the recipes in the order that `idx` gives.
pub fn arrange(recipes: &[Recipe], idx: &Vec<usize>) -> (out: Vec<Recipe>)
    requires
        forall|j: int| 0 <= j < idx@.len() ==> #[trigger] idx@[j] < recipes@.len(),
    ensures
        arranged(out@, recipes@, idx@),
{
    let mut out: Vec<Recipe> = Vec::new();
    let mut j: usize = 0;
    while j < idx.len()
        invariant
            forall|j: int| 0 <= j < idx@.len() ==> #[trigger] idx@[j] < recipes@.len(),
            j <= idx@.len(),
            out@.len() == j,
            forall|t: int| 0 <= t < j ==> (#[trigger] out@[t]).same_as(&recipes@[idx@[t] as int]),
        decreases idx@.len() - j,
    {
        out.push(recipes[idx[j]].duplicate());
        j = j + 1;
    }
    out
}

/// `out` holds the recipes of `rs` by ascending complexity, ties in their order.
pub open spec fn sorted_recipes(out: Seq<Recipe>, rs: Seq<Recipe>) -> bool {
    exists|keys: Seq<u64>, idx: Seq<usize>, d: Map<Seq<char>, nat>, ord: Map<Seq<char>, nat>|
        #[trigger] is_stable_order(idx, keys) && #[trigger] item_depths_ok(rs, d, ord) && covers(rs, d)
            && keys.len() == rs.len() && (forall|r: int|
            0 <= r < rs.len() ==> keys[r] == recipe_depth(#[trigger] rs[r], d)) && arranged(out, rs, idx)
}

/// The recipes sorted by ascending complexity; recipes of equal complexity keep their order.
pub fn sort_recipes(recipes: &[Recipe]) -> (out: Vec<Recipe>)
    ensures
        sorted_recipes(out@, recipes@),
{
    let keys = compute_complexity(recipes);
    let idx = stable_order(&keys);
    arrange(recipes, &idx)
}

/// A stable order by keys lists keys in non-decreasing order.
pub proof fn lemma_stable_order_sorted(idx: Seq<usize>, keys: Seq<u64>, a: int, b: int)
    requires
        is_stable_order(idx, keys),
        0 <= a <= b < idx.len(),
    ensures
        keys[idx[a] as int] <= keys[idx[b] as int],
{
    if a < b {
        assert(keys[idx[a] as int] < keys[idx[b] as int] || keys[idx[a] as int] == keys[idx[b] as int]);
    }
}

proof fn lemma_same_feeds(a: Seq<Recipe>, b: Seq<Recipe>)
    requires
        a.len() == b.len(),
        forall|j: int| 0 <= j < a.len() ==> (#[trigger] a[j]).same_as(&b[j]),
    ensures
        forall|x: Seq<char>, i: Seq<char>| #[trigger] feeds(a, x, i) ==> feeds(b, x, i),
        forall|x: Seq<char>, i: Seq<char>| #[trigger] needs(a, x, i) ==> needs(b, x, i),
        forall|r: int| 0 <= r < a.len() ==> (#[trigger] a[r]).inputs@ == b[r].inputs@ && a[r].outputs@ == b[r].outputs@,
{
    assert forall|r: int| 0 <= r < a.len() implies (#[trigger] a[r]).inputs@ == b[r].inputs@ && a[r].outputs@ == b[r].outputs@ by {
        assert(a[r].same_as(&b[r]));
    }
    assert forall|x: Seq<char>, i: Seq<char>| #[trigger] feeds(a, x, i) implies feeds(b, x, i) by {
        let (r, k, o) = choose|r: int, k: int, o: int|
            0 <= r < a.len() && 0 <= k < a[r].inputs@.len() && 0 <= o < a[r].outputs@.len()
                && #[trigger] a[r].inputs@[k].item.spec_id() == x && #[trigger] a[r].outputs@[o].item.spec_id() == i;
        assert(b[r].inputs@[k].item.spec_id() == x && b[r].outputs@[o].item.spec_id() == i);
    }
    assert forall|x: Seq<char>, i: Seq<char>| #[trigger] needs(a, x, i) implies needs(b, x, i) by {
        let p = choose|p: Seq<Seq<char>>| p.len() >= 1 && p[0] == x && p.last() == i && #[trigger] is_chain(a, p);
        assert forall|j: int| 0 <= j < p.len() - 1 implies feeds(b, #[trigger] p[j + 1], p[j]) by {
            assert(feeds(a, p[j + 1], p[j]));
        }
        assert(is_chain(b, p));
    }
}

proof fn lemma_same_recipes_one_way(a: Seq<Recipe>, b: Seq<Recipe>, d: Map<Seq<char>, nat>, ord: Map<Seq<char>, nat>)
    requires
        a.len() == b.len(),
        forall|j: int| 0 <= j < a.len() ==> (#[trigger] a[j]).same_as(&b[j]),
    ensures
        item_depths_ok(a, d, ord) ==> item_depths_ok(b, d, ord),
        covers(a, d) ==> covers(b, d),
{
    lemma_same_feeds(a, b);
    assert forall|j: int| 0 <= j < a.len() implies (#[trigger] b[j]).same_as(&a[j]) by {
        assert(a[j].same_as(&b[j]));
    }
    lemma_same_feeds(b, a);
    if item_depths_ok(a, d, ord) {
        assert forall|i: Seq<char>| #![trigger d.dom().contains(i)] d.dom().contains(i) implies {
            &&& forall|x: Seq<char>|
                #![trigger feeds(b, x, i)]
                feeds(b, x, i) ==> d.dom().contains(x) && d[i] >= 1 && ((ord[x] < ord[i] && d[i] >= d[x] + 1) || (
                ord[x] >= ord[i] && needs(b, x, i)))
            &&& d[i] == 0 || exists|x: Seq<char>|
                #![trigger feeds(b, x, i)]
                feeds(b, x, i) && (d[i] == 1 || (ord[x] < ord[i] && d[i] == d[x] + 1))
        } by {
            assert forall|x: Seq<char>| #[trigger] feeds(b, x, i) implies d.dom().contains(x) && d[i] >= 1 && ((ord[x]
                < ord[i] && d[i] >= d[x] + 1) || (ord[x] >= ord[i] && needs(b, x, i))) by {
                assert(feeds(a, x, i));
                assert(d.dom().contains(x) && d[i] >= 1 && ((ord[x] < ord[i] && d[i] >= d[x] + 1) || (ord[x]
                    >= ord[i] && needs(a, x, i))));
                if needs(a, x, i) {
                    assert(needs(b, x, i));
                }
            }
            if d[i] != 0 {
                let x = choose|x: Seq<char>|
                    #![trigger feeds(a, x, i)]
                    feeds(a, x, i) && (d[i] == 1 || (ord[x] < ord[i] && d[i] == d[x] + 1));
                assert(feeds(b, x, i));
            }
        }
    }
    if covers(a, d) {
        assert forall|r: int, k: int| 0 <= r < b.len() && 0 <= k < b[r].inputs@.len() implies d.dom().contains(
            #[trigger] b[r].inputs@[k].item.spec_id()) by {
            assert(a[r].inputs@ == b[r].inputs@);
            assert(d.dom().contains(a[r].inputs@[k].item.spec_id()));
        }
        assert forall|r: int, k: int| 0 <= r < b.len() && 0 <= k < b[r].outputs@.len() implies d.dom().contains(
            #[trigger] b[r].outputs@[k].item.spec_id()) by {
            assert(a[r].outputs@ == b[r].outputs@);
            assert(d.dom().contains(a[r].outputs@[k].item.spec_id()));
        }
    }
}

/// Recipes that agree field by field have the same item depths.
pub proof fn lemma_same_recipes(a: Seq<Recipe>, b: Seq<Recipe>, d: Map<Seq<char>, nat>, ord: Map<Seq<char>, nat>)
    requires
        a.len() == b.len(),
        forall|j: int| 0 <= j < a.len() ==> (#[trigger] a[j]).same_as(&b[j]),
    ensures
        item_depths_ok(a, d, ord) == item_depths_ok(b, d, ord),
        covers(a, d) == covers(b, d),
        forall|j: int| 0 <= j < a.len() ==> recipe_depth(#[trigger] a[j], d) == recipe_depth(b[j], d),
{
    lemma_same_recipes_one_way(a, b, d, ord);
    assert forall|j: int| 0 <= j < a.len() implies (#[trigger] b[j]).same_as(&a[j]) by {
        assert(a[j].same_as(&b[j]));
    }
    lemma_same_recipes_one_way(b, a, d, ord);
    assert forall|j: int| 0 <= j < a.len() implies recipe_depth(#[trigger] a[j], d) == recipe_depth(b[j], d) by {
        assert(a[j].same_as(&b[j]));
        assert(a[j].inputs@ == b[j].inputs@);
    }
}

} // verus!
